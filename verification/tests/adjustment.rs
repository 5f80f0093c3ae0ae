use font_fallback::adjustment::FontAdjustment;
use font_fallback::binary64::{Binary64, NAN_BITS, ONE_BITS};
use font_fallback::metrics::{lookup, DefaultFallbackFont, FontMetrics, GenericFamily};

fn number(x: f64) -> Binary64 {
    Binary64::from_bits(x.to_bits())
}

fn as_float(x: Binary64) -> f64 {
    f64::from_bits(x.to_bits())
}

fn target(ascent: f64, descent: f64, line_gap: f64, avg_char_width: f64, units_per_em: u32) -> FontMetrics {
    FontMetrics {
        ascent: number(ascent),
        descent: number(descent),
        line_gap: number(line_gap),
        avg_char_width: number(avg_char_width),
        units_per_em,
    }
}

fn custom_fallback(avg: f64, units_per_em: u32) -> DefaultFallbackFont {
    DefaultFallbackFont {
        name: "Custom".to_string(),
        capsize_key: "custom".to_string(),
        az_avg_width: number(avg),
        units_per_em,
    }
}

/// The adjustment as the machine's own arithmetic computes it.
fn by_machine(m: (f64, f64, f64, f64, u32), f: (f64, u32)) -> (f64, f64, f64, f64) {
    let size_adjust = (m.3 / m.4 as f64) / (f.0 / f.1 as f64);
    (
        (m.0 / m.4 as f64) / size_adjust,
        (m.1 / m.4 as f64) / size_adjust,
        (m.2 / m.4 as f64) / size_adjust,
        size_adjust,
    )
}

#[test]
fn roboto_like_font_against_arial() {
    let metrics = target(1950.0, -494.0, 0.0, 1102.0, 2048);
    let adjustment = FontAdjustment::compute(&metrics, &lookup(GenericFamily::SansSerif)).unwrap();
    assert_eq!(adjustment.size_adjust.to_bits(), 0x3ff2_de1b_9f92_bad7);
    assert_eq!(adjustment.ascent.to_bits(), 0x3fe9_d682_b7a9_4d39);
    assert_eq!(adjustment.descent.to_bits(), 0xbfca_2eb4_3f3a_eb44);
    assert_eq!(adjustment.line_gap.to_bits(), 0);
    assert!((as_float(adjustment.size_adjust) - 1.1793).abs() < 0.0001);
    assert!((as_float(adjustment.ascent) - 0.807).abs() < 0.001);
    assert!((as_float(adjustment.descent) + 0.204).abs() < 0.001);
    assert_eq!(as_float(adjustment.line_gap), 0.0);
    assert_eq!(as_float(adjustment.size_adjust), 1102.0 / 2048.0 / (934.5116279069767 / 2048.0));
}

#[test]
fn roboto_like_font_against_times_new_roman() {
    let metrics = target(1950.0, -494.0, 0.0, 1102.0, 2048);
    let adjustment = FontAdjustment::compute(&metrics, &lookup(GenericFamily::Serif)).unwrap();
    let expected = by_machine((1950.0, -494.0, 0.0, 1102.0, 2048), (854.3953488372093, 2048));
    assert_eq!(as_float(adjustment.ascent), expected.0);
    assert_eq!(as_float(adjustment.descent), expected.1);
    assert_eq!(as_float(adjustment.line_gap), expected.2);
    assert_eq!(as_float(adjustment.size_adjust), expected.3);
    assert!((as_float(adjustment.size_adjust) - 1.2898).abs() < 0.0001);
}

#[test]
fn adjustment_follows_the_formula() {
    let targets = [
        (1900.0, -500.0, 0.0, 1000.0, 2048),
        (800.0, -200.0, 90.0, 512.25, 1000),
        (1069.0, -293.0, 0.0, 1123.0, 1000),
        (2146.0, -555.0, 0.0, 1130.5, 2048),
        (0.0, 0.0, 0.0, 1.0, 1),
        (-17.0, 23.0, -1.0, 0.001, 16),
        (1e300, -1e300, 1e-300, 1e-300, u32::MAX),
        (750.0, -250.0, 200.0, -431.0, 1000),
    ];
    let fallbacks = [
        (934.5116279069767, 2048),
        (854.3953488372093, 2048),
        (500.0, 1000),
        (1.0, 3),
        (1e200, 7),
    ];
    for m in targets {
        for f in fallbacks {
            let adjustment = FontAdjustment::compute(&target(m.0, m.1, m.2, m.3, m.4), &custom_fallback(f.0, f.1))
                .unwrap();
            let expected = by_machine(m, f);
            assert_eq!(adjustment.ascent.to_bits(), expected.0.to_bits());
            assert_eq!(adjustment.descent.to_bits(), expected.1.to_bits());
            assert_eq!(adjustment.line_gap.to_bits(), expected.2.to_bits());
            assert_eq!(adjustment.size_adjust.to_bits(), expected.3.to_bits());
        }
    }
}

#[test]
fn own_metrics_of_a_default_need_no_scaling() {
    for family in [GenericFamily::SansSerif, GenericFamily::Serif] {
        let fallback = lookup(family);
        let metrics = FontMetrics {
            ascent: number(1854.0),
            descent: number(-434.0),
            line_gap: number(67.0),
            avg_char_width: fallback.az_avg_width,
            units_per_em: fallback.units_per_em,
        };
        let adjustment = FontAdjustment::compute(&metrics, &fallback).unwrap();
        assert_eq!(adjustment.size_adjust.to_bits(), ONE_BITS);
        assert_eq!(as_float(adjustment.size_adjust), 1.0);
        assert_eq!(as_float(adjustment.ascent), 1854.0 / 2048.0);
        assert_eq!(as_float(adjustment.descent), -434.0 / 2048.0);
        assert_eq!(as_float(adjustment.line_gap), 67.0 / 2048.0);
    }
}

#[test]
fn unusable_average_width_gives_no_adjustment() {
    let arial = lookup(GenericFamily::SansSerif);
    for width in [f64::NAN, f64::INFINITY, f64::NEG_INFINITY, 0.0, -0.0] {
        let metrics = target(1950.0, -494.0, 0.0, width, 2048);
        assert_eq!(FontAdjustment::compute(&metrics, &arial), None);
    }
    let odd_nan = FontMetrics {
        ascent: number(1.0),
        descent: number(1.0),
        line_gap: number(1.0),
        avg_char_width: Binary64::from_bits(0xfff0_0000_0000_0001),
        units_per_em: 1000,
    };
    assert_eq!(FontAdjustment::compute(&odd_nan, &arial), None);
}

#[test]
fn non_finite_metric_gives_no_adjustment() {
    let arial = lookup(GenericFamily::SansSerif);
    for bad in [f64::NAN, f64::INFINITY, f64::NEG_INFINITY] {
        assert_eq!(FontAdjustment::compute(&target(bad, -494.0, 0.0, 1102.0, 2048), &arial), None);
        assert_eq!(FontAdjustment::compute(&target(1950.0, bad, 0.0, 1102.0, 2048), &arial), None);
        assert_eq!(FontAdjustment::compute(&target(1950.0, -494.0, bad, 1102.0, 2048), &arial), None);
    }
}

#[test]
fn zero_width_fallback_gives_no_adjustment() {
    let metrics = target(1950.0, -494.0, 0.0, 1102.0, 2048);
    assert_eq!(FontAdjustment::compute(&metrics, &custom_fallback(0.0, 2048)), None);
    assert_eq!(FontAdjustment::compute(&metrics, &custom_fallback(-0.0, 2048)), None);
    // A width too small for its em underflows to a zero ratio.
    assert_eq!(FontAdjustment::compute(&metrics, &custom_fallback(5e-324, 4)), None);
    // A width that keeps a nonzero ratio does not.
    assert!(FontAdjustment::compute(&metrics, &custom_fallback(5e-324, 1)).is_some());
}

#[test]
fn zero_metrics_are_usable() {
    let adjustment = FontAdjustment::compute(
        &target(0.0, -0.0, 0.0, 1102.0, 2048),
        &lookup(GenericFamily::SansSerif),
    )
    .unwrap();
    assert_eq!(adjustment.ascent.to_bits(), 0);
    assert_eq!(adjustment.descent.to_bits(), (-0.0f64).to_bits());
    assert_eq!(adjustment.line_gap.to_bits(), 0);
}

#[test]
fn a_zero_em_divides_by_zero_as_the_arithmetic_does() {
    let adjustment = FontAdjustment::compute(
        &target(1950.0, -494.0, 0.0, 1102.0, 0),
        &lookup(GenericFamily::SansSerif),
    )
    .unwrap();
    assert!(adjustment.size_adjust.is_infinite());
    assert_eq!(adjustment.ascent.to_bits(), NAN_BITS);
    assert_eq!(adjustment.descent.to_bits(), NAN_BITS);
    assert_eq!(adjustment.line_gap.to_bits(), NAN_BITS);
}

#[test]
fn computation_is_repeatable() {
    let metrics = target(1950.0, -494.0, 0.0, 1102.0, 2048);
    let arial = lookup(GenericFamily::SansSerif);
    assert_eq!(
        FontAdjustment::compute(&metrics, &arial),
        FontAdjustment::compute(&metrics, &arial)
    );
}

#[test]
fn adjustments_compare_bit_by_bit() {
    let nan = Binary64::from_bits(NAN_BITS);
    let a = FontAdjustment { ascent: nan, descent: nan, line_gap: nan, size_adjust: nan };
    let b = FontAdjustment { ascent: nan, descent: nan, line_gap: nan, size_adjust: nan };
    assert_eq!(a, b);
    let c = FontAdjustment {
        ascent: number(0.0),
        descent: number(0.0),
        line_gap: number(0.0),
        size_adjust: number(1.0),
    };
    let d = FontAdjustment {
        ascent: number(-0.0),
        descent: number(0.0),
        line_gap: number(0.0),
        size_adjust: number(1.0),
    };
    assert_ne!(c, d);
}
