use font_fallback::binary64::{Binary64, NAN_BITS, ONE_BITS, SIGN_BIT};
use font_fallback::rounding::{HIDDEN_BIT, INFINITY_BITS};

fn num(x: f64) -> Binary64 {
    Binary64::from_bits(x.to_bits())
}

fn native(x: Binary64) -> f64 {
    f64::from_bits(x.to_bits())
}

/// Checks one quotient against the machine's own division.
fn agrees_with_machine(a: u64, b: u64) -> bool {
    let expected = f64::from_bits(a) / f64::from_bits(b);
    let got = Binary64::from_bits(a).div(Binary64::from_bits(b));
    if expected.is_nan() {
        got.to_bits() == NAN_BITS
    } else {
        got.to_bits() == expected.to_bits()
    }
}

fn next_pattern(state: &mut u64) -> u64 {
    *state = state
        .wrapping_mul(6364136223846793005)
        .wrapping_add(1442695040888963407);
    let high = *state >> 11;
    *state = state
        .wrapping_mul(6364136223846793005)
        .wrapping_add(1442695040888963407);
    (high << 11) ^ (*state >> 40)
}

#[test]
fn bit_patterns_round_trip() {
    assert_eq!(Binary64::from_bits(0x1234_5678_9abc_def0).to_bits(), 0x1234_5678_9abc_def0);
    assert_eq!(num(1.0).to_bits(), ONE_BITS);
    assert_eq!(num(f64::INFINITY).to_bits(), INFINITY_BITS);
    assert_eq!(num(-0.0).to_bits(), SIGN_BIT);
    assert_eq!(num(f64::MIN_POSITIVE).to_bits(), HIDDEN_BIT);
}

#[test]
fn equality_is_bitwise() {
    assert_eq!(Binary64::from_bits(NAN_BITS), Binary64::from_bits(NAN_BITS));
    assert_ne!(num(0.0), num(-0.0));
    assert_ne!(Binary64::from_bits(NAN_BITS), Binary64::from_bits(NAN_BITS + 1));
    assert_eq!(num(1.5), num(1.5));
}

#[test]
fn classes_agree_with_the_machine() {
    let samples = [
        0.0,
        -0.0,
        1.0,
        -1.0,
        f64::MIN_POSITIVE,
        f64::MIN_POSITIVE / 2.0,
        5e-324,
        f64::MAX,
        f64::MIN,
        f64::INFINITY,
        f64::NEG_INFINITY,
        f64::NAN,
        -f64::NAN,
        934.5116279069767,
    ];
    for x in samples {
        let n = num(x);
        assert_eq!(n.is_nan(), x.is_nan());
        assert_eq!(n.is_infinite(), x.is_infinite());
        assert_eq!(n.is_finite(), x.is_finite());
        assert_eq!(n.is_zero(), x == 0.0);
    }
    assert!(Binary64::from_bits(0x7ff0_0000_0000_0001).is_nan());
    assert!(Binary64::from_bits(0xffff_ffff_ffff_ffff).is_nan());
    assert!(!Binary64::from_bits(0x7fef_ffff_ffff_ffff).is_nan());
    assert!(Binary64::from_bits(0x7fef_ffff_ffff_ffff).is_finite());
}

#[test]
fn integers_convert_exactly() {
    let samples = [
        0u32,
        1,
        2,
        3,
        7,
        1000,
        2048,
        65535,
        65536,
        16_777_217,
        0x7fff_ffff,
        0x8000_0000,
        0x8000_0001,
        u32::MAX - 1,
        u32::MAX,
    ];
    for n in samples {
        assert_eq!(Binary64::from_u32(n).to_bits(), (n as f64).to_bits());
    }
    let mut n: u32 = 1;
    while n < 4_000_000_000 {
        assert_eq!(native(Binary64::from_u32(n)), n as f64);
        n = n + n / 3 + 1;
    }
    assert_eq!(Binary64::from_u32(2048).to_bits(), 0x40a0_0000_0000_0000);
}

#[test]
fn simple_quotients() {
    assert_eq!(native(num(1.0).div(num(2.0))), 0.5);
    assert_eq!(native(num(6.0).div(num(3.0))), 2.0);
    assert_eq!(native(num(-6.0).div(num(3.0))), -2.0);
    assert_eq!(native(num(6.0).div(num(-3.0))), -2.0);
    assert_eq!(native(num(-6.0).div(num(-3.0))), 2.0);
    assert_eq!(num(1.0).div(num(3.0)).to_bits(), 0x3fd5_5555_5555_5555);
    assert_eq!(num(2.0).div(num(3.0)).to_bits(), 0x3fe5_5555_5555_5555);
    assert_eq!(num(1.0).div(num(10.0)).to_bits(), 0x3fb9_9999_9999_999a);
    assert_eq!(num(1102.0).div(num(2048.0)).to_bits(), (1102.0f64 / 2048.0).to_bits());
}

#[test]
fn division_by_the_number_itself_is_one() {
    for x in [1.0, -3.5, 934.5116279069767, 5e-324, f64::MAX, f64::MIN_POSITIVE, 1e-310] {
        assert_eq!(num(x).div(num(x)).to_bits(), ONE_BITS);
    }
}

#[test]
fn division_by_one_is_the_number() {
    for x in [0.0, -0.0, 1.0, -3.5, 5e-324, f64::MAX, f64::INFINITY, f64::NEG_INFINITY, 1e-310] {
        assert_eq!(num(x).div(num(1.0)).to_bits(), x.to_bits());
    }
}

#[test]
fn invalid_operations_give_the_nan() {
    let nan = Binary64::from_bits(NAN_BITS);
    assert_eq!(num(0.0).div(num(0.0)), nan);
    assert_eq!(num(-0.0).div(num(0.0)), nan);
    assert_eq!(num(f64::INFINITY).div(num(f64::NEG_INFINITY)), nan);
    assert_eq!(num(f64::NAN).div(num(1.0)), nan);
    assert_eq!(num(1.0).div(num(f64::NAN)), nan);
    assert_eq!(Binary64::from_bits(0xfff0_0000_0000_0001).div(num(2.0)), nan);
    assert_eq!(num(f64::NAN).div(num(f64::NAN)), nan);
}

#[test]
fn zeros_and_infinities_keep_the_sign_rule() {
    assert_eq!(num(1.0).div(num(0.0)).to_bits(), INFINITY_BITS);
    assert_eq!(num(-1.0).div(num(0.0)).to_bits(), INFINITY_BITS + SIGN_BIT);
    assert_eq!(num(1.0).div(num(-0.0)).to_bits(), INFINITY_BITS + SIGN_BIT);
    assert_eq!(num(-1.0).div(num(-0.0)).to_bits(), INFINITY_BITS);
    assert_eq!(num(0.0).div(num(5.0)).to_bits(), 0);
    assert_eq!(num(0.0).div(num(-5.0)).to_bits(), SIGN_BIT);
    assert_eq!(num(-0.0).div(num(-5.0)).to_bits(), 0);
    assert_eq!(num(3.0).div(num(f64::INFINITY)).to_bits(), 0);
    assert_eq!(num(-3.0).div(num(f64::INFINITY)).to_bits(), SIGN_BIT);
    assert_eq!(num(f64::INFINITY).div(num(-3.0)).to_bits(), INFINITY_BITS + SIGN_BIT);
    assert_eq!(num(f64::INFINITY).div(num(0.0)).to_bits(), INFINITY_BITS);
    assert_eq!(num(0.0).div(num(f64::NEG_INFINITY)).to_bits(), SIGN_BIT);
}

#[test]
fn quotients_overflow_to_infinity() {
    assert_eq!(num(f64::MAX).div(num(0.5)).to_bits(), INFINITY_BITS);
    assert_eq!(num(f64::MAX).div(num(-0.5)).to_bits(), INFINITY_BITS + SIGN_BIT);
    assert_eq!(num(1e308).div(num(1e-308)).to_bits(), INFINITY_BITS);
    assert_eq!(num(1.0).div(num(5e-324)).to_bits(), INFINITY_BITS);
    // Just below the threshold the largest finite number comes out.
    assert_eq!(
        num(f64::MAX).div(Binary64::from_bits(0x3fef_ffff_ffff_ffff)).to_bits(),
        (f64::MAX / f64::from_bits(0x3fef_ffff_ffff_ffff)).to_bits()
    );
    assert_eq!(num(f64::MAX).div(num(1.0)).to_bits(), 0x7fef_ffff_ffff_ffff);
}

#[test]
fn quotients_underflow_through_the_subnormals() {
    assert_eq!(num(5e-324).div(num(2.0)).to_bits(), 0);
    assert_eq!(num(-5e-324).div(num(2.0)).to_bits(), SIGN_BIT);
    assert_eq!(num(5e-324).div(num(1.5)).to_bits(), 1);
    assert_eq!(num(1.5e-323).div(num(2.0)).to_bits(), 2);
    assert_eq!(num(2.5e-323).div(num(2.0)).to_bits(), 2);
    assert_eq!(num(f64::MIN_POSITIVE).div(num(2.0)).to_bits(), HIDDEN_BIT / 2);
    assert_eq!(num(f64::MIN_POSITIVE).div(num(f64::MAX)).to_bits(), 0);
    assert_eq!(num(1e-300).div(num(1e300)).to_bits(), 0);
    assert_eq!(num(1e-160).div(num(1e160)).to_bits(), (1e-160f64 / 1e160).to_bits());
    assert_eq!(
        Binary64::from_bits(0x000f_ffff_ffff_ffff).div(num(0.999)).to_bits(),
        (f64::from_bits(0x000f_ffff_ffff_ffff) / 0.999).to_bits()
    );
}

#[test]
fn ties_go_to_the_even_pattern() {
    // 3 units by 2 is one and a half units: half way between patterns 1 and 2.
    assert_eq!(Binary64::from_bits(3).div(num(2.0)).to_bits(), 2);
    // 5 units by 2 is two and a half: half way between 2 and 3.
    assert_eq!(Binary64::from_bits(5).div(num(2.0)).to_bits(), 2);
    // 1 unit by 2 is half a unit: half way between 0 and 1.
    assert_eq!(Binary64::from_bits(1).div(num(2.0)).to_bits(), 0);
    // 7 units by 4 is one and three quarters, nearer to 2.
    assert_eq!(Binary64::from_bits(7).div(num(4.0)).to_bits(), 2);
    // 5 units by 4 is one and a quarter, nearer to 1.
    assert_eq!(Binary64::from_bits(5).div(num(4.0)).to_bits(), 1);
    // The largest subnormal and a half rounds up into the normal range.
    assert_eq!(
        Binary64::from_bits(0x001f_ffff_ffff_ffff).div(num(2.0)).to_bits(),
        HIDDEN_BIT
    );
}

#[test]
fn division_matches_the_machine_on_edge_patterns() {
    let edges = [
        0u64,
        1,
        2,
        3,
        HIDDEN_BIT - 1,
        HIDDEN_BIT,
        HIDDEN_BIT + 1,
        2 * HIDDEN_BIT - 1,
        2 * HIDDEN_BIT,
        ONE_BITS - 1,
        ONE_BITS,
        ONE_BITS + 1,
        0x3fe0_0000_0000_0000,
        0x3fef_ffff_ffff_ffff,
        0x4000_0000_0000_0000,
        0x4008_0000_0000_0000,
        0x7fe0_0000_0000_0000,
        INFINITY_BITS - 1,
        INFINITY_BITS,
        INFINITY_BITS + 1,
        NAN_BITS,
        0x7fff_ffff_ffff_ffff,
        0x0000_0000_8000_0000,
        0x0008_0000_0000_0000,
        0x408d_3417_d05f_417d,
        0x408a_b329_aca6_b29b,
    ];
    for a in edges {
        for b in edges {
            for (x, y) in [(a, b), (a | SIGN_BIT, b), (a, b | SIGN_BIT), (a | SIGN_BIT, b | SIGN_BIT)] {
                assert!(agrees_with_machine(x, y), "{:#x} / {:#x}", x, y);
            }
        }
    }
}

#[test]
fn division_matches_the_machine_on_scattered_patterns() {
    let mut state: u64 = 0x9e37_79b9_7f4a_7c15;
    for _ in 0..60_000 {
        let a = next_pattern(&mut state);
        let b = next_pattern(&mut state);
        assert!(agrees_with_machine(a, b), "{:#x} / {:#x}", a, b);
    }
}

#[test]
fn division_matches_the_machine_near_the_subnormals() {
    let mut state: u64 = 0x0123_4567_89ab_cdef;
    for _ in 0..60_000 {
        // Small dividends and divisors near one put the quotient at the bottom of the range.
        let a = next_pattern(&mut state) % (4 * HIDDEN_BIT);
        let b = ONE_BITS - 2 * HIDDEN_BIT + next_pattern(&mut state) % (4 * HIDDEN_BIT);
        assert!(agrees_with_machine(a, b), "{:#x} / {:#x}", a, b);
        assert!(agrees_with_machine(b, a), "{:#x} / {:#x}", b, a);
        let c = next_pattern(&mut state) % (4 * HIDDEN_BIT);
        assert!(agrees_with_machine(a, c), "{:#x} / {:#x}", a, c);
    }
}

#[test]
fn division_matches_the_machine_on_ordinary_numbers() {
    let mut state: u64 = 42;
    for _ in 0..60_000 {
        let x = (next_pattern(&mut state) % 2_000_000) as f64 / 7.0 - 100_000.0;
        let y = (next_pattern(&mut state) % 5_000) as f64 / 3.0 - 500.0;
        assert!(agrees_with_machine(x.to_bits(), y.to_bits()), "{} / {}", x, y);
    }
}
