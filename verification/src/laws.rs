//! Laws of the division and of the adjustment computed with it.

use vstd::prelude::*;
use vstd::arithmetic::div_mod::{
    lemma_div_by_multiple, lemma_div_is_ordered, lemma_fundamental_div_mod,
};
use vstd::arithmetic::power2::{
    pow2, lemma_pow2_pos, lemma_pow2_adds, lemma2_to64, lemma2_to64_rest,
};
use crate::adjustment::{FontAdjustment, width_ratio};
use crate::binary64::{Binary64, ONE_BITS, lemma_from_u32};
use crate::metrics::{DefaultFallbackFontView, FontMetrics, GenericFamily, reference_font};
use crate::rounding::{
    HIDDEN_BIT, INFINITY_BITS, scaled_value, lemma_scaled_of_parts, lemma_scaled_monotonic,
    lemma_exact_is_nearest, lemma_round_is, lemma_round_exists,
};

verus! {

/// Division gives a NaN for the invalid operations only: a NaN operand, zero
/// by zero, and infinity by infinity.
pub proof fn law_div_is_nan(a: Binary64, b: Binary64)
    ensures
        a.spec_div(b).spec_is_nan() <==> (a.spec_is_nan() || b.spec_is_nan() || (
        a.spec_is_infinite() && b.spec_is_infinite()) || (a.spec_is_zero() && b.spec_is_zero())),
{
    if a.spec_is_finite() && b.spec_is_finite() && !a.spec_is_zero() && !b.spec_is_zero() {
        lemma_scaled_monotonic(0, b.magnitude());
        lemma_round_exists(
            scaled_value(a.magnitude()) * pow2(1074),
            scaled_value(b.magnitude()),
        );
    }
}

/// The number 1 is worth 2^1074 units.
proof fn lemma_one_scaled()
    ensures
        scaled_value(ONE_BITS as nat) == pow2(1074),
{
    lemma2_to64_rest();
    lemma_scaled_of_parts(1022, HIDDEN_BIT as nat);
    lemma_pow2_adds(52, 1022);
}

/// Dividing by 1 changes nothing, whatever the number that is not a NaN.
pub proof fn law_div_by_one(x: Binary64)
    requires
        !x.spec_is_nan(),
    ensures
        x.spec_div(Binary64::one()) == x,
{
    if x.spec_is_finite() && !x.spec_is_zero() {
        let mag: nat = x.magnitude();
        let den: nat = scaled_value(ONE_BITS as nat);
        let num: nat = scaled_value(mag) * pow2(1074);
        lemma_one_scaled();
        lemma_pow2_pos(1074);
        lemma_exact_is_nearest(mag, num, den);
        lemma_round_is(mag, num, den);
    }
}

/// A finite number other than zero, divided by itself, is 1.
pub proof fn law_div_by_self(x: Binary64)
    requires
        x.spec_is_finite(),
        !x.spec_is_zero(),
    ensures
        x.spec_div(x) == Binary64::one(),
{
    let den: nat = scaled_value(x.magnitude());
    let num: nat = den * pow2(1074);
    lemma_one_scaled();
    lemma_scaled_monotonic(0, x.magnitude());
    assert(num == scaled_value(ONE_BITS as nat) * den) by (nonlinear_arith)
        requires
            num == den * pow2(1074),
            scaled_value(ONE_BITS as nat) == pow2(1074),
    ;
    lemma_exact_is_nearest(ONE_BITS as nat, num, den);
    lemma_round_is(ONE_BITS as nat, num, den);
}

/// Dividing a normal number by 2^k lowers its exponent by `k` and leaves the
/// rest of the bits alone, as long as the exponent stays that of a normal
/// number.
pub proof fn law_div_by_power_of_two(x: Binary64, d: Binary64, k: nat)
    requires
        x.spec_is_finite(),
        x.magnitude() >= (k + 1) * HIDDEN_BIT,
        d.represents(pow2(k)),
    ensures
        x.bits >= k * HIDDEN_BIT,
        x.spec_div(d) == (Binary64 { bits: (x.bits - k * HIDDEN_BIT) as u64 }),
{
    let h: nat = HIDDEN_BIT as nat;
    let mag: nat = x.magnitude();
    let u: nat = (mag / h - 1) as nat;
    let m: nat = h + mag % h;
    let r: nat = (mag - k * h) as nat;
    lemma_pow2_pos(k);
    lemma_pow2_pos(1074);
    assert(pow2(k) * pow2(1074) > 0) by (nonlinear_arith)
        requires
            pow2(k) > 0,
            pow2(1074) > 0,
    ;
    assert(scaled_value(0) == 0);
    assert(d.bits != 0);
    assert(mag >= h) by (nonlinear_arith)
        requires
            mag >= (k + 1) * h,
            h > 0,
    ;
    assert(mag / h >= k + 1) by {
        lemma_div_is_ordered(((k + 1) * h) as int, mag as int, h as int);
        lemma_div_by_multiple((k + 1) as int, h as int);
    }
    lemma_fundamental_div_mod(mag as int, h as int);
    assert(mag == u * h + m) by (nonlinear_arith)
        requires
            mag == h * (mag / h) + mag % h,
            u == mag / h - 1,
            m == h + mag % h,
    ;
    assert(r == (u - k) * h + m) by (nonlinear_arith)
        requires
            mag == u * h + m,
            r == mag - k * h,
    ;
    lemma_scaled_of_parts(u, m);
    lemma_scaled_of_parts((u - k) as nat, m);
    lemma_pow2_adds((u - k) as nat, k);
    let den: nat = scaled_value(d.magnitude());
    let num: nat = scaled_value(mag) * pow2(1074);
    assert(num == scaled_value(r) * den) by (nonlinear_arith)
        requires
            num == (m * pow2(u)) * pow2(1074),
            scaled_value(r) == m * pow2((u - k) as nat),
            den == pow2(k) * pow2(1074),
            pow2(u) == pow2((u - k) as nat) * pow2(k),
    ;
    assert(r < INFINITY_BITS);
    lemma_exact_is_nearest(r, num, den);
    lemma_round_is(r, num, den);
}

/// A font measured against a default fallback with that fallback's own
/// average width and em needs no scaling: the size adjustment is exactly 1,
/// and each override is the plain fraction of the em that the metric is.
pub proof fn law_identity_adjustment(
    family: GenericFamily,
    ascent: Binary64,
    descent: Binary64,
    line_gap: Binary64,
)
    requires
        ascent.spec_is_finite(),
        descent.spec_is_finite(),
        line_gap.spec_is_finite(),
    ensures
        ({
            let fallback = reference_font(family);
            let em = Binary64::spec_from_u32(fallback.units_per_em);
            let metrics = FontMetrics {
                ascent,
                descent,
                line_gap,
                avg_char_width: fallback.az_avg_width,
                units_per_em: fallback.units_per_em,
            };
            FontAdjustment::spec_compute(metrics, fallback) == Some(
                FontAdjustment {
                    ascent: ascent.spec_div(em),
                    descent: descent.spec_div(em),
                    line_gap: line_gap.spec_div(em),
                    size_adjust: Binary64::one(),
                },
            )
        }),
{
    let fallback = reference_font(family);
    let em = Binary64::spec_from_u32(fallback.units_per_em);
    let width = fallback.az_avg_width;
    lemma2_to64();
    lemma_from_u32(fallback.units_per_em);
    assert(em.represents(pow2(11)));
    law_div_by_power_of_two(width, em, 11);
    let ratio = width_ratio(width, fallback.units_per_em);
    assert(ratio.bits == width.bits - 11 * HIDDEN_BIT);
    law_div_by_self(ratio);
    law_div_is_nan(ascent, em);
    law_div_is_nan(descent, em);
    law_div_is_nan(line_gap, em);
    law_div_by_one(ascent.spec_div(em));
    law_div_by_one(descent.spec_div(em));
    law_div_by_one(line_gap.spec_div(em));
}

/// Without a finite average width other than zero there is no adjustment,
/// whatever the fallback.
pub proof fn law_unusable_width(metrics: FontMetrics, fallback: DefaultFallbackFontView)
    requires
        !metrics.avg_char_width.spec_is_finite() || metrics.avg_char_width.spec_is_zero(),
    ensures
        FontAdjustment::spec_compute(metrics, fallback) is None,
{
}

} // verus!
