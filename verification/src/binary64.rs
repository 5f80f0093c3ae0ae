//! IEEE 754 binary64 numbers, held as their bit patterns.
//!
//! Font metrics are real numbers, and the overrides computed from them end up
//! in cache keys, where a result has to be the same bit for bit on every
//! machine. So the arithmetic is done here on the patterns themselves: two
//! values are equal when their bits are, and each operation's result is fixed
//! by its operands, NaNs included.

use vstd::prelude::*;
use vstd::arithmetic::power2::{
    pow2, lemma_pow2_adds, lemma_pow2_unfold, lemma_pow2_strictly_increases, lemma2_to64,
    lemma2_to64_rest,
};
use vstd::arithmetic::div_mod::lemma_fundamental_div_mod;
use crate::rounding::{
    HIDDEN_BIT, INFINITY_BITS, scaled_value, round_to_nearest, lemma_scaled_of_parts,
    lemma_scaled_monotonic, lemma_round_is, lemma_round_from_division, lemma_round_overflow,
    lemma_round_underflow, lemma_quotient_relation,
};

verus! {

/// The sign bit. A pattern from here on is negative.
pub const SIGN_BIT: u64 = 0x8000_0000_0000_0000;

/// The one NaN that the arithmetic produces: positive and quiet, with an empty payload.
pub const NAN_BITS: u64 = 0x7ff8_0000_0000_0000;

/// The pattern of 1.0.
pub const ONE_BITS: u64 = 0x3ff0_0000_0000_0000;

/// A binary64 number. Equality is equality of the bits: a NaN equals itself,
/// and the two zeros differ.
#[derive(Clone, Copy, Debug, PartialEq, Eq, Hash, Structural)]
pub struct Binary64 {
    pub bits: u64,
}

impl Binary64 {
    /// The pattern without its sign bit.
    pub open spec fn magnitude(self) -> nat {
        (self.bits % SIGN_BIT) as nat
    }

    /// Whether the sign bit is set. It may be set on zeros, infinities and NaNs too.
    pub open spec fn negative(self) -> bool {
        self.bits >= SIGN_BIT
    }

    pub open spec fn spec_is_nan(self) -> bool {
        self.magnitude() > INFINITY_BITS
    }

    pub open spec fn spec_is_infinite(self) -> bool {
        self.magnitude() == INFINITY_BITS
    }

    pub open spec fn spec_is_finite(self) -> bool {
        self.magnitude() < INFINITY_BITS
    }

    pub open spec fn spec_is_zero(self) -> bool {
        self.magnitude() == 0
    }

    /// The number with the given sign and magnitude.
    pub open spec fn with_sign(negative: bool, mag: nat) -> Binary64 {
        Binary64 {
            bits: if negative {
                (mag + SIGN_BIT) as u64
            } else {
                mag as u64
            },
        }
    }

    /// The NaN that every invalid operation returns.
    pub open spec fn nan() -> Binary64 {
        Binary64 { bits: NAN_BITS }
    }

    /// The number 1.
    pub open spec fn one() -> Binary64 {
        Binary64 { bits: ONE_BITS }
    }

    /// Whether the number is finite, not negative, and worth exactly `n`.
    pub open spec fn represents(self, n: nat) -> bool {
        self.bits < INFINITY_BITS && scaled_value(self.bits as nat) == n * pow2(1074)
    }

    /// The number that is worth `n`. Every `u32` has one, see [`lemma_from_u32`].
    pub open spec fn spec_from_u32(n: u32) -> Binary64 {
        choose|r: Binary64| r.represents(n as nat)
    }

    /// The quotient of two numbers, as IEEE 754 defines division under
    /// round-to-nearest, ties-to-even.
    ///
    /// A NaN operand, zero by zero and infinity by infinity give the NaN.
    /// Otherwise the sign is negative exactly when the operands' signs differ;
    /// an infinite dividend or a zero divisor gives infinity, a zero dividend
    /// or an infinite divisor gives zero, and two finite nonzero operands give
    /// their real quotient rounded to the nearest magnitude, which is infinity
    /// where the quotient is too large and zero where it is too small.
    pub open spec fn spec_div(self, rhs: Binary64) -> Binary64 {
        let negative = self.negative() != rhs.negative();
        if self.spec_is_nan() || rhs.spec_is_nan() || (self.spec_is_infinite()
            && rhs.spec_is_infinite()) || (self.spec_is_zero() && rhs.spec_is_zero()) {
            Self::nan()
        } else if self.spec_is_infinite() || rhs.spec_is_zero() {
            Self::with_sign(negative, INFINITY_BITS as nat)
        } else if self.spec_is_zero() || rhs.spec_is_infinite() {
            Self::with_sign(negative, 0)
        } else {
            Self::with_sign(
                negative,
                round_to_nearest(
                    scaled_value(self.magnitude()) * pow2(1074),
                    scaled_value(rhs.magnitude()),
                ),
            )
        }
    }

    /// The number with the given bit pattern.
    pub fn from_bits(bits: u64) -> (r: Binary64)
        ensures
            r.bits == bits,
    {
        Binary64 { bits }
    }

    /// The bit pattern of the number.
    pub fn to_bits(self) -> (bits: u64)
        ensures
            bits == self.bits,
    {
        self.bits
    }

    /// Whether the number is a NaN.
    #[verifier::when_used_as_spec(spec_is_nan)]
    pub fn is_nan(self) -> (r: bool)
        ensures
            r == self.spec_is_nan(),
    {
        self.bits % SIGN_BIT > INFINITY_BITS
    }

    /// Whether the number is positive or negative infinity.
    #[verifier::when_used_as_spec(spec_is_infinite)]
    pub fn is_infinite(self) -> (r: bool)
        ensures
            r == self.spec_is_infinite(),
    {
        self.bits % SIGN_BIT == INFINITY_BITS
    }

    /// Whether the number is neither infinite nor a NaN.
    #[verifier::when_used_as_spec(spec_is_finite)]
    pub fn is_finite(self) -> (r: bool)
        ensures
            r == self.spec_is_finite(),
    {
        self.bits % SIGN_BIT < INFINITY_BITS
    }

    /// Whether the number is positive or negative zero.
    #[verifier::when_used_as_spec(spec_is_zero)]
    pub fn is_zero(self) -> (r: bool)
        ensures
            r == self.spec_is_zero(),
    {
        self.bits % SIGN_BIT == 0
    }

    /// Converts an integer. Every `u32` fits the significand, so the result is exact.
    pub fn from_u32(n: u32) -> (r: Binary64)
        ensures
            r == Self::spec_from_u32(n),
            r.represents(n as nat),
    {
        if n == 0 {
            let zero = Binary64 { bits: 0 };
            proof {
                assert(0 * pow2(1074) == 0) by (nonlinear_arith);
                assert(zero.represents(0));
                lemma_represents_unique(zero, Self::spec_from_u32(n), n as nat);
            }
            return zero;
        }
        // The value is m * 2^(e - 1075) throughout, which is m * 2^(e - 1) units.
        let mut m: u64 = n as u64;
        let mut e: u64 = 1075;
        proof {
            lemma2_to64_rest();
            assert(m * pow2(52) >= HIDDEN_BIT) by (nonlinear_arith)
                requires
                    m >= 1,
                    pow2(52) == HIDDEN_BIT,
            ;
        }
        while m < HIDDEN_BIT
            invariant
                0 < m < 2 * HIDDEN_BIT,
                1023 <= e <= 1075,
                m * pow2((e - 1) as nat) == n * pow2(1074),
                m * pow2((e - 1023) as nat) >= HIDDEN_BIT,
            decreases e,
        {
            proof {
                lemma2_to64();
                if e == 1023 {
                    assert(m * pow2(0) == m) by (nonlinear_arith)
                        requires
                            pow2(0) == 1,
                    ;
                }
                lemma_pow2_unfold((e - 1) as nat);
                lemma_pow2_unfold((e - 1023) as nat);
                assert((2 * m) * pow2((e - 2) as nat) == m * pow2((e - 1) as nat))
                    by (nonlinear_arith)
                    requires
                        pow2((e - 1) as nat) == 2 * pow2((e - 2) as nat),
                ;
                assert((2 * m) * pow2((e - 1024) as nat) == m * pow2((e - 1023) as nat))
                    by (nonlinear_arith)
                    requires
                        pow2((e - 1023) as nat) == 2 * pow2((e - 1024) as nat),
                ;
            }
            m = 2 * m;
            e = e - 1;
        }
        let r = Binary64 { bits: (e - 1) * HIDDEN_BIT + m };
        proof {
            lemma_scaled_of_parts((e - 1) as nat, m as nat);
            assert(r.represents(n as nat));
            lemma_represents_unique(r, Self::spec_from_u32(n), n as nat);
        }
        r
    }

    /// Divides by `rhs`, rounding to nearest with ties to even.
    pub fn div(self, rhs: Binary64) -> (r: Binary64)
        ensures
            r == self.spec_div(rhs),
    {
        let negative: bool = (self.bits >= SIGN_BIT) != (rhs.bits >= SIGN_BIT);
        let a: u64 = self.bits % SIGN_BIT;
        let b: u64 = rhs.bits % SIGN_BIT;
        if a > INFINITY_BITS || b > INFINITY_BITS || (a == INFINITY_BITS && b == INFINITY_BITS)
            || (a == 0 && b == 0) {
            Binary64 { bits: NAN_BITS }
        } else if a == INFINITY_BITS || b == 0 {
            signed(negative, INFINITY_BITS)
        } else if a == 0 || b == INFINITY_BITS {
            signed(negative, 0)
        } else {
            signed(negative, divide_magnitudes(a, b))
        }
    }
}

/// Two numbers that are worth the same integer are the same number.
pub proof fn lemma_represents_unique(x: Binary64, y: Binary64, n: nat)
    requires
        x.represents(n),
        y.represents(n),
    ensures
        x == y,
{
    if x.bits < y.bits {
        lemma_scaled_monotonic(x.bits as nat, y.bits as nat);
    } else if y.bits < x.bits {
        lemma_scaled_monotonic(y.bits as nat, x.bits as nat);
    }
}

proof fn lemma_pattern_exists(m: nat, e: nat, k: nat) -> (r: nat)
    requires
        0 < m < 2 * HIDDEN_BIT,
        k < e <= 2046,
        m * pow2(k) >= HIDDEN_BIT,
    ensures
        r < INFINITY_BITS,
        scaled_value(r) == m * pow2((e - 1) as nat),
    decreases k,
{
    if m >= HIDDEN_BIT {
        lemma_scaled_of_parts((e - 1) as nat, m);
        ((e - 1) * HIDDEN_BIT + m) as nat
    } else {
        lemma2_to64();
        if k == 0 {
            assert(m * pow2(0) == m) by (nonlinear_arith)
                requires
                    pow2(0) == 1,
            ;
        }
        lemma_pow2_unfold(k);
        lemma_pow2_unfold((e - 1) as nat);
        assert((2 * m) * pow2((k - 1) as nat) == m * pow2(k)) by (nonlinear_arith)
            requires
                pow2(k) == 2 * pow2((k - 1) as nat),
        ;
        assert((2 * m) * pow2((e - 2) as nat) == m * pow2((e - 1) as nat)) by (nonlinear_arith)
            requires
                pow2((e - 1) as nat) == 2 * pow2((e - 2) as nat),
        ;
        lemma_pattern_exists(2 * m, (e - 1) as nat, (k - 1) as nat)
    }
}

/// Every `u32` is worth exactly what its conversion is.
pub proof fn lemma_from_u32(n: u32)
    ensures
        Binary64::spec_from_u32(n).represents(n as nat),
{
    if n == 0 {
        let zero = Binary64 { bits: 0 };
        assert(0 * pow2(1074) == 0) by (nonlinear_arith);
        assert(zero.represents(0));
    } else {
        lemma2_to64_rest();
        assert(n * pow2(52) >= HIDDEN_BIT) by (nonlinear_arith)
            requires
                n >= 1,
                pow2(52) == HIDDEN_BIT,
        ;
        let r = lemma_pattern_exists(n as nat, 1075, 52);
        let witness = Binary64 { bits: r as u64 };
        assert(witness.represents(n as nat));
    }
}

fn signed(negative: bool, mag: u64) -> (r: Binary64)
    requires
        mag <= INFINITY_BITS,
    ensures
        r == Binary64::with_sign(negative, mag as nat),
{
    if negative {
        Binary64 { bits: mag + SIGN_BIT }
    } else {
        Binary64 { bits: mag }
    }
}

/// Two to the power `k`.
fn power_of_two(k: u32) -> (r: u128)
    requires
        k <= 54,
    ensures
        r == pow2(k as nat),
        1 <= r <= 0x40_0000_0000_0000,
{
    let mut r: u128 = 1;
    let mut i: u32 = 0;
    proof {
        lemma2_to64();
        lemma2_to64_rest();
    }
    while i < k
        invariant
            i <= k <= 54,
            r == pow2(i as nat),
            1 <= r <= 0x40_0000_0000_0000,
            pow2(54) == 0x40_0000_0000_0000,
        decreases k - i,
    {
        proof {
            lemma_pow2_unfold((i + 1) as nat);
            if i + 1 < 54 {
                lemma_pow2_strictly_increases((i + 1) as nat, 54);
            }
        }
        r = 2 * r;
        i = i + 1;
    }
    r
}

/// Splits a finite nonzero magnitude into a significand with its leading bit
/// at 2^52 and an exponent `g`, so that the magnitude is worth
/// `significand * 2^(g - 52)`. Subnormals are shifted up until the leading bit
/// is in place.
fn normalize(mag: u64) -> (r: (u64, u32))
    requires
        0 < mag < INFINITY_BITS,
    ensures
        HIDDEN_BIT <= r.0 < 2 * HIDDEN_BIT,
        r.1 <= 2097,
        scaled_value(mag as nat) * pow2(52) == r.0 * pow2(r.1 as nat),
{
    let e: u64 = mag / HIDDEN_BIT;
    let frac: u64 = mag % HIDDEN_BIT;
    if e > 0 {
        proof {
            lemma_pow2_adds((e - 1) as nat, 52);
            assert(((HIDDEN_BIT + frac) * pow2((e - 1) as nat)) * pow2(52) == (HIDDEN_BIT + frac)
                * (pow2((e - 1) as nat) * pow2(52))) by (nonlinear_arith);
        }
        (HIDDEN_BIT + frac, (e + 51) as u32)
    } else {
        let mut m: u64 = frac;
        let mut g: u32 = 52;
        proof {
            lemma2_to64_rest();
        }
        while m < HIDDEN_BIT
            invariant
                0 < m < 2 * HIDDEN_BIT,
                g <= 52,
                m * pow2(g as nat) == frac * pow2(52),
                frac >= 1,
                pow2(52) == HIDDEN_BIT,
            decreases g,
        {
            proof {
                lemma2_to64();
                if g == 0 {
                    assert(m * pow2(0) == m) by (nonlinear_arith)
                        requires
                            pow2(0) == 1,
                    ;
                    assert(frac * pow2(52) >= HIDDEN_BIT) by (nonlinear_arith)
                        requires
                            frac >= 1,
                            pow2(52) == HIDDEN_BIT,
                    ;
                }
                lemma_pow2_unfold(g as nat);
                assert((2 * m) * pow2((g - 1) as nat) == m * pow2(g as nat)) by (nonlinear_arith)
                    requires
                        pow2(g as nat) == 2 * pow2((g - 1) as nat),
                ;
            }
            m = 2 * m;
            g = g - 1;
        }
        (m, g)
    }
}

/// The magnitude of the quotient of two finite nonzero magnitudes.
///
/// Both significands are normalized, the dividend is shifted so that the
/// integer quotient has its leading bit at 2^52, and where the result is
/// subnormal the divisor is shifted too, so that one division yields the
/// significand at its final precision and a remainder to round by.
fn divide_magnitudes(a: u64, b: u64) -> (r: u64)
    requires
        0 < a < INFINITY_BITS,
        0 < b < INFINITY_BITS,
    ensures
        r <= INFINITY_BITS,
        r == round_to_nearest(scaled_value(a as nat) * pow2(1074), scaled_value(b as nat)),
{
    let (na, ga) = normalize(a);
    let (nb, gb) = normalize(b);
    let ghost num: nat = scaled_value(a as nat) * pow2(1074);
    let ghost den: nat = scaled_value(b as nat);
    let workable: bool = na >= nb;
    let sh: u32 = if workable {
        52
    } else {
        53
    };
    let n: u128 = if workable {
        (na as u128) * 0x10_0000_0000_0000
    } else {
        (na as u128) * 0x20_0000_0000_0000
    };
    let c: i64 = (ga as i64) - (gb as i64) + 1074 - (sh as i64);
    proof {
        lemma2_to64_rest();
        lemma_scaled_monotonic(0, b as nat);
        assert(n == na * pow2(sh as nat));
        assert(n >= HIDDEN_BIT * nb);
        assert(n < 2 * HIDDEN_BIT * nb);
    }
    if c >= 2046 {
        proof {
            lemma2_to64();
            lemma_quotient_relation(
                scaled_value(a as nat),
                den,
                na as nat,
                ga as nat,
                nb as nat,
                gb as nat,
                sh as nat,
                0,
                c as nat,
            );
            assert(nb * pow2(0) == nb) by (nonlinear_arith)
                requires
                    pow2(0) == 1,
            ;
            lemma_round_overflow(num, den, n as nat, nb as nat, c as nat);
            lemma_round_is(INFINITY_BITS as nat, num, den);
        }
        return INFINITY_BITS;
    }
    if c <= -55 {
        proof {
            let s: nat = (-c) as nat;
            let d: nat = (nb as nat) * pow2(s);
            lemma2_to64();
            lemma_quotient_relation(
                scaled_value(a as nat),
                den,
                na as nat,
                ga as nat,
                nb as nat,
                gb as nat,
                sh as nat,
                s,
                0,
            );
            assert((n * den) * pow2(0) == n * den) by (nonlinear_arith)
                requires
                    pow2(0) == 1,
            ;
            if s > 55 {
                lemma_pow2_strictly_increases(55, s);
            }
            assert(2 * n <= d) by (nonlinear_arith)
                requires
                    n < 0x20_0000_0000_0000 * nb,
                    d == nb * pow2(s),
                    pow2(s) >= 0x80_0000_0000_0000,
                    nb > 0,
            ;
            lemma_round_underflow(num, den, n as nat, d);
            lemma_round_is(0, num, den);
        }
        return 0;
    }
    let s: u32 = if c < 0 {
        (-c) as u32
    } else {
        0
    };
    let u: u64 = if c < 0 {
        0
    } else {
        c as u64
    };
    let scale: u128 = power_of_two(s);
    proof {
        assert((nb as u128) * scale <= 0x20_0000_0000_0000 * 0x40_0000_0000_0000)
            by (nonlinear_arith)
            requires
                nb < 0x20_0000_0000_0000,
                scale <= 0x40_0000_0000_0000,
        ;
    }
    let d: u128 = (nb as u128) * scale;
    proof {
        assert(d >= nb) by (nonlinear_arith)
            requires
                d == nb * scale,
                scale >= 1,
        ;
    }
    let q: u128 = n / d;
    let rem: u128 = n % d;
    proof {
        lemma2_to64();
        lemma_fundamental_div_mod(n as int, d as int);
        assert(q < 0x20_0000_0000_0000) by (nonlinear_arith)
            requires
                n == d * q + rem,
                n < 0x20_0000_0000_0000 * nb,
                d >= nb,
                d > 0,
        ;
        if u > 0 {
            assert(d == nb) by (nonlinear_arith)
                requires
                    d == nb * scale,
                    scale == 1,
            ;
            assert(q >= 0x10_0000_0000_0000) by (nonlinear_arith)
                requires
                    n == d * q + rem,
                    rem < d,
                    n >= 0x10_0000_0000_0000 * d,
                    d > 0,
            ;
        }
        lemma_quotient_relation(
            scaled_value(a as nat),
            den,
            na as nat,
            ga as nat,
            nb as nat,
            gb as nat,
            sh as nat,
            s as nat,
            u as nat,
        );
        lemma_round_from_division(num, den, n as nat, d as nat, u as nat);
    }
    let p: u64 = u * HIDDEN_BIT + (q as u64);
    if 2 * rem > d || (2 * rem == d && q % 2 == 1) {
        proof {
            lemma_round_is((p + 1) as nat, num, den);
        }
        p + 1
    } else {
        proof {
            lemma_round_is(p as nat, num, den);
        }
        p
    }
}

} // verus!
