//! The metric overrides that fit a fallback font to a webfont.

use vstd::prelude::*;
use crate::binary64::Binary64;
use crate::metrics::{DefaultFallbackFont, DefaultFallbackFontView, FontMetrics};

verus! {

/// An adjustment to be made to a fallback font to approximate the geometry of
/// the webfont. A stylesheet renders it as `ascent-override`,
/// `descent-override`, `line-gap-override` and `size-adjust`.
///
/// Two adjustments are equal when all their bits are, so that an adjustment
/// can be part of a cache key.
#[derive(Clone, Copy, Debug, PartialEq, Eq, Hash, Structural)]
pub struct FontAdjustment {
    pub ascent: Binary64,
    pub descent: Binary64,
    pub line_gap: Binary64,
    pub size_adjust: Binary64,
}

/// The average advance width as a fraction of the em.
pub open spec fn width_ratio(avg_width: Binary64, units_per_em: u32) -> Binary64 {
    avg_width.spec_div(Binary64::spec_from_u32(units_per_em))
}

/// Whether the metrics can be adjusted to: all four are finite, and the
/// average width is not zero.
pub open spec fn metrics_usable(metrics: FontMetrics) -> bool {
    &&& metrics.ascent.spec_is_finite()
    &&& metrics.descent.spec_is_finite()
    &&& metrics.line_gap.spec_is_finite()
    &&& metrics.avg_char_width.spec_is_finite()
    &&& !metrics.avg_char_width.spec_is_zero()
}

/// One metric as a fraction of the em, compensated for the scaling that
/// `size_adjust` applies to the whole fallback font.
pub open spec fn override_value(metric: Binary64, units_per_em: u32, size_adjust: Binary64)
    -> Binary64 {
    metric.spec_div(Binary64::spec_from_u32(units_per_em)).spec_div(size_adjust)
}

impl FontAdjustment {
    /// The adjustment that fits `fallback` to a font with the given metrics.
    ///
    /// The scale factor is the ratio of the two fonts' average widths, each
    /// taken relative to its own em. There is no adjustment where the metrics
    /// are not usable or the fallback's relative width is zero.
    pub open spec fn spec_compute(metrics: FontMetrics, fallback: DefaultFallbackFontView)
        -> Option<FontAdjustment> {
        let fallback_ratio = width_ratio(fallback.az_avg_width, fallback.units_per_em);
        if !metrics_usable(metrics) || fallback_ratio.spec_is_zero() {
            None
        } else {
            let size_adjust = width_ratio(metrics.avg_char_width, metrics.units_per_em).spec_div(
                fallback_ratio,
            );
            Some(
                FontAdjustment {
                    ascent: override_value(metrics.ascent, metrics.units_per_em, size_adjust),
                    descent: override_value(metrics.descent, metrics.units_per_em, size_adjust),
                    line_gap: override_value(metrics.line_gap, metrics.units_per_em, size_adjust),
                    size_adjust,
                },
            )
        }
    }

    /// Computes the adjustment that fits `fallback` to a font with the given
    /// metrics, or `None` where there is none to compute: a metric is infinite
    /// or a NaN, the average width is zero, or the fallback's width is.
    pub fn compute(metrics: &FontMetrics, fallback: &DefaultFallbackFont) -> (r: Option<
        FontAdjustment,
    >)
        ensures
            r == Self::spec_compute(*metrics, fallback@),
            !metrics.avg_char_width.spec_is_finite() || metrics.avg_char_width.spec_is_zero()
                ==> r is None,
    {
        if !metrics.ascent.is_finite() || !metrics.descent.is_finite()
            || !metrics.line_gap.is_finite() || !metrics.avg_char_width.is_finite()
            || metrics.avg_char_width.is_zero() {
            return None;
        }
        let fallback_ratio = fallback.az_avg_width.div(Binary64::from_u32(fallback.units_per_em));
        if fallback_ratio.is_zero() {
            return None;
        }
        let units_per_em = Binary64::from_u32(metrics.units_per_em);
        let size_adjust = metrics.avg_char_width.div(units_per_em).div(fallback_ratio);
        Some(
            FontAdjustment {
                ascent: metrics.ascent.div(units_per_em).div(size_adjust),
                descent: metrics.descent.div(units_per_em).div(size_adjust),
                line_gap: metrics.line_gap.div(units_per_em).div(size_adjust),
                size_adjust,
            },
        )
    }
}

} // verus!
