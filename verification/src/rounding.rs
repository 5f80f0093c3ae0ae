//! The value model of binary64 magnitudes and the round-to-nearest-even rule.
//!
//! A magnitude is a bit pattern without its sign bit. Its value is counted in
//! units of 2^-1074, the smallest positive subnormal, so that every finite
//! magnitude is worth a natural number and no fractions are needed.

use vstd::prelude::*;
use vstd::arithmetic::power2::{
    pow2, lemma_pow2_pos, lemma_pow2_adds, lemma_pow2_unfold, lemma_pow2_strictly_increases,
    lemma2_to64,
};
use vstd::arithmetic::div_mod::{lemma_fundamental_div_mod, lemma_fundamental_div_mod_converse};

verus! {

/// The weight of the implicit leading bit of a normal significand, 2^52.
pub const HIDDEN_BIT: u64 = 0x0010_0000_0000_0000;

/// The magnitude of infinity. Smaller magnitudes are finite, larger ones are NaNs.
pub const INFINITY_BITS: u64 = 0x7ff0_0000_0000_0000;

/// The number of units of 2^-1074 that the magnitude `mag` is worth.
///
/// Below 2^52 the pattern is subnormal and counts units directly. From there
/// on the significand carries the hidden bit and is scaled by the exponent
/// field. The pattern of infinity is worth 2^1024 in real terms, one step
/// beyond the largest finite value, which is what rounding at the top needs.
pub open spec fn scaled_value(mag: nat) -> nat {
    if mag < HIDDEN_BIT as nat {
        mag
    } else {
        (HIDDEN_BIT as nat + mag % (HIDDEN_BIT as nat)) * pow2(
            (mag / (HIDDEN_BIT as nat) - 1) as nat,
        )
    }
}

/// Whether the magnitude `r` is the quotient `num / den`, counted in units of
/// 2^-1074, rounded to the nearest representable magnitude, ties going to the
/// pattern with an even last bit.
///
/// The quotient lies no further from `r` than from either neighbour of `r`;
/// exactly half way is allowed only where `r` is even. Infinity has no upper
/// neighbour and zero no lower one.
pub open spec fn is_nearest(r: nat, num: nat, den: nat) -> bool {
    &&& r <= INFINITY_BITS as nat
    &&& r < INFINITY_BITS as nat ==> {
        ||| 2 * num < (scaled_value(r) + scaled_value(r + 1)) * den
        ||| (2 * num == (scaled_value(r) + scaled_value(r + 1)) * den && r % 2 == 0)
    }
    &&& r > 0 ==> {
        ||| 2 * num > (scaled_value((r - 1) as nat) + scaled_value(r)) * den
        ||| (2 * num == (scaled_value((r - 1) as nat) + scaled_value(r)) * den && r % 2 == 0)
    }
}

/// The magnitude nearest to `num / den` units. [`lemma_nearest_unique`] shows
/// that at most one magnitude qualifies.
pub open spec fn round_to_nearest(num: nat, den: nat) -> nat {
    choose|r: nat| is_nearest(r, num, den)
}

/// Whether the remainder of `n / d` sends the quotient up to the next integer
/// under the ties-to-even rule.
pub open spec fn rounds_up(n: nat, d: nat) -> bool {
    2 * (n % d) > d || (2 * (n % d) == d && (n / d) % 2 == 1)
}

/// A significand `q` under the unit exponent `u` is worth `q * 2^u`. The
/// significand may be subnormal only where `u` is zero, and may be 2^53, which
/// is the carry into the next exponent.
pub proof fn lemma_scaled_of_parts(u: nat, q: nat)
    requires
        q <= 2 * HIDDEN_BIT,
        u > 0 ==> q >= HIDDEN_BIT,
    ensures
        scaled_value(u * (HIDDEN_BIT as nat) + q) == q * pow2(u),
{
    let h: nat = HIDDEN_BIT as nat;
    let p: nat = u * h + q;
    lemma2_to64();
    if q < h {
        assert(u == 0);
        assert(p == q);
    } else if q < 2 * h {
        assert(p == (u + 1) * h + (q - h));
        lemma_fundamental_div_mod_converse_nat(p, h, u + 1, (q - h) as nat);
        assert(p / h == u + 1);
        assert(p % h == q - h);
    } else {
        assert(p == (u + 2) * h);
        lemma_fundamental_div_mod_converse_nat(p, h, u + 2, 0);
        lemma_pow2_unfold(u + 1);
        assert(h * (2 * pow2(u)) == (2 * h) * pow2(u)) by (nonlinear_arith);
    }
}

/// Quotient and remainder are determined by `x == q * d + r` with `r < d`.
pub proof fn lemma_fundamental_div_mod_converse_nat(x: nat, d: nat, q: nat, r: nat)
    requires
        d > 0,
        r < d,
        x == q * d + r,
    ensures
        x / d == q,
        x % d == r,
{
    lemma_fundamental_div_mod_converse(x as int, d as int, q as int, r as int);
}

/// Each finite magnitude is worth strictly less than the next one.
pub proof fn lemma_scaled_increases(p: nat)
    requires
        p < INFINITY_BITS,
    ensures
        scaled_value(p) < scaled_value(p + 1),
{
    let h: nat = HIDDEN_BIT as nat;
    lemma2_to64();
    if p < h {
        lemma_scaled_of_parts(0, p);
        lemma_scaled_of_parts(0, p + 1);
    } else {
        let u: nat = (p / h - 1) as nat;
        let q: nat = h + p % h;
        lemma_fundamental_div_mod(p as int, h as int);
        assert(p == u * h + q) by (nonlinear_arith)
            requires
                p == h * (p / h) + p % h,
                u == p / h - 1,
                q == h + p % h,
        ;
        lemma_scaled_of_parts(u, q);
        lemma_scaled_of_parts(u, q + 1);
        lemma_pow2_pos(u);
        assert((q + 1) * pow2(u) == q * pow2(u) + pow2(u)) by (nonlinear_arith);
    }
}

/// The worth of a magnitude grows strictly with the magnitude.
pub proof fn lemma_scaled_monotonic(low: nat, high: nat)
    requires
        low < high <= INFINITY_BITS,
    ensures
        scaled_value(low) < scaled_value(high),
    decreases high - low,
{
    lemma_scaled_increases((high - 1) as nat);
    if low + 1 < high {
        lemma_scaled_monotonic(low, (high - 1) as nat);
    }
}

proof fn lemma_nearest_ordered(r1: nat, r2: nat, num: nat, den: nat)
    requires
        den > 0,
        is_nearest(r1, num, den),
        is_nearest(r2, num, den),
    ensures
        r2 <= r1,
{
    if r1 < r2 {
        let low: nat = scaled_value(r1) + scaled_value(r1 + 1);
        let high: nat = scaled_value((r2 - 1) as nat) + scaled_value(r2);
        assert(2 * num <= low * den);
        assert(2 * num >= high * den);
        if r1 + 1 < r2 {
            lemma_scaled_monotonic(r1, r2);
            lemma_scaled_monotonic(r1 + 1, r2);
            if r1 + 1 < r2 - 1 {
                lemma_scaled_monotonic(r1 + 1, (r2 - 1) as nat);
            }
            assert(low < high);
            assert(low * den < high * den) by (nonlinear_arith)
                requires
                    low < high,
                    den > 0,
            ;
        }
    }
}

/// Rounding to nearest, ties to even, has at most one result.
pub proof fn lemma_nearest_unique(r1: nat, r2: nat, num: nat, den: nat)
    requires
        den > 0,
        is_nearest(r1, num, den),
        is_nearest(r2, num, den),
    ensures
        r1 == r2,
{
    lemma_nearest_ordered(r1, r2, num, den);
    lemma_nearest_ordered(r2, r1, num, den);
}

/// A magnitude that qualifies as nearest is the rounded quotient.
pub proof fn lemma_round_is(r: nat, num: nat, den: nat)
    requires
        den > 0,
        is_nearest(r, num, den),
    ensures
        round_to_nearest(num, den) == r,
{
    lemma_nearest_unique(round_to_nearest(num, den), r, num, den);
}

/// A quotient that a magnitude is worth exactly rounds to that magnitude.
pub proof fn lemma_exact_is_nearest(r: nat, num: nat, den: nat)
    requires
        den > 0,
        r <= INFINITY_BITS,
        num == scaled_value(r) * den,
    ensures
        is_nearest(r, num, den),
{
    let here: nat = scaled_value(r);
    if r < INFINITY_BITS {
        lemma_scaled_increases(r);
        let above: nat = scaled_value(r + 1);
        assert(2 * (here * den) < (here + above) * den) by (nonlinear_arith)
            requires
                here < above,
                den > 0,
        ;
    }
    if r > 0 {
        lemma_scaled_increases((r - 1) as nat);
        let below: nat = scaled_value((r - 1) as nat);
        assert(2 * (here * den) > (below + here) * den) by (nonlinear_arith)
            requires
                below < here,
                den > 0,
        ;
    }
}

/// Rounding the quotient `num / den` by one integer division.
///
/// Where `num / den` equals `(n / d) * 2^u` as a fraction, the integer
/// quotient of `n` by `d` is the significand under the unit exponent `u`, and
/// the remainder decides whether the next magnitude is nearer.
pub proof fn lemma_round_from_division(num: nat, den: nat, n: nat, d: nat, u: nat)
    requires
        den > 0,
        d > 0,
        u <= 2045,
        num * d == n * den * pow2(u),
        n / d < 2 * HIDDEN_BIT,
        u > 0 ==> n / d >= HIDDEN_BIT,
    ensures
        rounds_up(n, d) ==> is_nearest(u * (HIDDEN_BIT as nat) + n / d + 1, num, den),
        !rounds_up(n, d) ==> is_nearest(u * (HIDDEN_BIT as nat) + n / d, num, den),
{
    let h: nat = HIDDEN_BIT as nat;
    let q: nat = n / d;
    let rem: nat = n % d;
    let unit: nat = pow2(u);
    let p: nat = u * h + q;
    lemma_fundamental_div_mod(n as int, d as int);
    lemma_pow2_pos(u);
    lemma_scaled_of_parts(u, q);
    lemma_scaled_of_parts(u, q + 1);
    let here: nat = scaled_value(p);
    let next: nat = scaled_value(p + 1);
    assert(here == q * unit);
    assert(next == (q + 1) * unit);
    assert(p + 1 <= INFINITY_BITS);
    assert(p == 2 * (u * 0x8_0000_0000_0000) + q);
    assert(p % 2 == q % 2);
    let k: nat = den * unit;
    assert(k > 0) by (nonlinear_arith)
        requires
            k == den * unit,
            den > 0,
            unit > 0,
    ;
    // The quotient lies between the two magnitudes, and the remainder says where.
    assert((num - here * den) * d == rem * k) by (nonlinear_arith)
        requires
            num * d == n * den * unit,
            n == d * q + rem,
            here == q * unit,
            k == den * unit,
    ;
    assert((next * den - num) * d == (d - rem) * k) by (nonlinear_arith)
        requires
            num * d == n * den * unit,
            n == d * q + rem,
            next == (q + 1) * unit,
            k == den * unit,
    ;
    assert((2 * num - (here + next) * den) * d == (2 * rem - d) * k) by (nonlinear_arith)
        requires
            (num - here * den) * d == rem * k,
            (next * den - num) * d == (d - rem) * k,
    ;
    assert(num >= here * den) by (nonlinear_arith)
        requires
            (num - here * den) * d == rem * k,
            d > 0,
            k > 0,
            rem >= 0,
    ;
    assert(num < next * den) by (nonlinear_arith)
        requires
            (next * den - num) * d == (d - rem) * k,
            d > 0,
            k > 0,
            rem < d,
    ;
    let gap: int = 2 * num - (here + next) * den;
    assert((2 * rem > d ==> gap > 0) && (2 * rem == d ==> gap == 0) && (2 * rem < d ==> gap < 0))
        by (nonlinear_arith)
        requires
            gap * d == (2 * rem - d) * k,
            d > 0,
            k > 0,
    ;
    if rounds_up(n, d) {
        if p + 1 < INFINITY_BITS {
            lemma_scaled_increases(p + 1);
            let beyond: nat = scaled_value(p + 2);
            assert(2 * num < (next + beyond) * den) by (nonlinear_arith)
                requires
                    num < next * den,
                    next < beyond,
                    den > 0,
            ;
        }
    } else {
        if p > 0 {
            lemma_scaled_increases((p - 1) as nat);
            let below: nat = scaled_value((p - 1) as nat);
            assert(2 * num > (below + here) * den) by (nonlinear_arith)
                requires
                    num >= here * den,
                    below < here,
                    den > 0,
            ;
        }
    }
}

/// A quotient of at least 2^1024 in real terms rounds to infinity.
pub proof fn lemma_round_overflow(num: nat, den: nat, n: nat, d: nat, u: nat)
    requires
        den > 0,
        d > 0,
        u >= 2046,
        num * d == n * den * pow2(u),
        n >= HIDDEN_BIT * d,
    ensures
        is_nearest(INFINITY_BITS as nat, num, den),
{
    let h: nat = HIDDEN_BIT as nat;
    let top: nat = INFINITY_BITS as nat;
    let unit: nat = pow2(u);
    let least: nat = pow2(2046);
    lemma_pow2_pos(2046);
    if u > 2046 {
        lemma_pow2_strictly_increases(2046, u);
    }
    lemma_scaled_of_parts(2045, 2 * h);
    assert(top == 2045 * h + 2 * h);
    lemma_pow2_unfold(2046);
    let here: nat = scaled_value(top);
    assert(here == h * least) by (nonlinear_arith)
        requires
            here == (2 * h) * pow2(2045),
            least == 2 * pow2(2045),
    ;
    lemma_scaled_increases((top - 1) as nat);
    let below: nat = scaled_value((top - 1) as nat);
    assert(n * den >= h * d * den) by (nonlinear_arith)
        requires
            n >= h * d,
            den > 0,
    ;
    assert(n * den * unit >= h * d * den * least) by (nonlinear_arith)
        requires
            n * den >= h * d * den,
            unit >= least,
            least > 0,
    ;
    assert(num >= here * den) by (nonlinear_arith)
        requires
            num * d >= h * d * den * least,
            here == h * least,
            d > 0,
    ;
    assert(2 * num > (below + here) * den) by (nonlinear_arith)
        requires
            num >= here * den,
            below < here,
            den > 0,
    ;
}

/// A quotient of at most half the smallest subnormal rounds to zero.
pub proof fn lemma_round_underflow(num: nat, den: nat, n: nat, d: nat)
    requires
        den > 0,
        d > 0,
        num * d == n * den,
        2 * n <= d,
    ensures
        is_nearest(0, num, den),
{
    assert(2 * num <= den) by (nonlinear_arith)
        requires
            num * d == n * den,
            2 * n <= d,
            d > 0,
            den > 0,
    ;
    assert(scaled_value(0) == 0);
    assert(scaled_value(1) == 1);
    assert((scaled_value(0) + scaled_value(1)) * den == den) by (nonlinear_arith)
        requires
            scaled_value(0) + scaled_value(1) == 1,
    ;
}

proof fn lemma_cross_multiply(
    sa: int,
    sb: int,
    na: int,
    nb: int,
    t52: int,
    tga: int,
    tgb: int,
    t1074: int,
    ts: int,
    tsh: int,
    tu: int,
)
    requires
        sa * t52 == na * tga,
        sb * t52 == nb * tgb,
        tga * t1074 * ts == tsh * tgb * tu,
        t52 > 0,
    ensures
        (sa * t1074) * (nb * ts) == (na * tsh) * sb * tu,
{
    let left: int = (sa * t1074) * (nb * ts);
    let right: int = (na * tsh) * sb * tu;
    let both: int = tga * t1074 * ts;
    assert(left * t52 == (sa * t52) * (t1074 * nb * ts)) by (nonlinear_arith)
        requires
            left == (sa * t1074) * (nb * ts),
    ;
    assert((sa * t52) * (t1074 * nb * ts) == (na * nb) * both) by (nonlinear_arith)
        requires
            sa * t52 == na * tga,
            both == tga * t1074 * ts,
    ;
    assert(right * t52 == (sb * t52) * (na * tsh * tu)) by (nonlinear_arith)
        requires
            right == (na * tsh) * sb * tu,
    ;
    assert((sb * t52) * (na * tsh * tu) == (na * nb) * both) by (nonlinear_arith)
        requires
            sb * t52 == nb * tgb,
            both == tsh * tgb * tu,
    ;
    assert(left == right) by (nonlinear_arith)
        requires
            left * t52 == right * t52,
            t52 > 0,
    ;
}

/// The fraction that the quotient of two decomposed magnitudes is.
///
/// `sa` and `sb` are the worths of the operands, given through normalized
/// significands `na`, `nb` and exponents `ga`, `gb` with a common offset of 52.
/// Shifting the dividend by `sh` and the divisor by `s` leaves the unit
/// exponent `u`, provided the exponents balance.
pub proof fn lemma_quotient_relation(
    sa: nat,
    sb: nat,
    na: nat,
    ga: nat,
    nb: nat,
    gb: nat,
    sh: nat,
    s: nat,
    u: nat,
)
    requires
        sa * pow2(52) == na * pow2(ga),
        sb * pow2(52) == nb * pow2(gb),
        u + gb + sh == ga + 1074 + s,
    ensures
        (sa * pow2(1074)) * (nb * pow2(s)) == (na * pow2(sh)) * sb * pow2(u),
{
    lemma_pow2_pos(52);
    lemma_pow2_adds(ga, 1074);
    lemma_pow2_adds(ga + 1074, s);
    lemma_pow2_adds(sh, gb);
    lemma_pow2_adds(sh + gb, u);
    assert(pow2(ga) * pow2(1074) * pow2(s) == pow2(sh) * pow2(gb) * pow2(u));
    lemma_cross_multiply(
        sa as int,
        sb as int,
        na as int,
        nb as int,
        pow2(52) as int,
        pow2(ga) as int,
        pow2(gb) as int,
        pow2(1074) as int,
        pow2(s) as int,
        pow2(sh) as int,
        pow2(u) as int,
    );
}

proof fn lemma_floor_exists(num: nat, den: nat, bound: nat) -> (low: nat)
    requires
        den > 0,
        bound <= INFINITY_BITS,
    ensures
        low <= bound,
        scaled_value(low) * den <= num,
        low < bound ==> num < scaled_value(low + 1) * den,
    decreases bound,
{
    if scaled_value(bound) * den <= num {
        bound
    } else if bound == 0 {
        assert(scaled_value(0) * den == 0) by (nonlinear_arith)
            requires
                scaled_value(0) == 0,
        ;
        0
    } else {
        lemma_floor_exists(num, den, (bound - 1) as nat)
    }
}

/// Every quotient with a positive divisor has a nearest magnitude, and the
/// rounded quotient is it.
pub proof fn lemma_round_exists(num: nat, den: nat)
    requires
        den > 0,
    ensures
        is_nearest(round_to_nearest(num, den), num, den),
{
    let top: nat = INFINITY_BITS as nat;
    let low: nat = lemma_floor_exists(num, den, top);
    let here: nat = scaled_value(low);
    let r: nat = if low == top {
        low
    } else {
        let next: nat = scaled_value(low + 1);
        if 2 * num < (here + next) * den || (2 * num == (here + next) * den && low % 2 == 0) {
            low
        } else {
            low + 1
        }
    };
    if low > 0 {
        lemma_scaled_increases((low - 1) as nat);
        let below: nat = scaled_value((low - 1) as nat);
        assert(2 * num > (below + here) * den) by (nonlinear_arith)
            requires
                num >= here * den,
                below < here,
                den > 0,
        ;
    }
    if low < top {
        let next: nat = scaled_value(low + 1);
        if low + 1 < top {
            lemma_scaled_increases(low + 1);
            let beyond: nat = scaled_value(low + 2);
            assert(2 * num < (next + beyond) * den) by (nonlinear_arith)
                requires
                    num < next * den,
                    next < beyond,
                    den > 0,
            ;
        }
    }
    assert(is_nearest(r, num, den));
}

} // verus!
