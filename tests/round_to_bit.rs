use forma::{F32Bits, RoundToBit};

fn round<const B: usize>(x: f32) -> f32 {
    f32::from_bits(F32Bits::from_bits(x.to_bits()).round_to_bit::<B>().to_bits())
}

fn float_formula(x: f32, b: usize) -> f32 {
    let shift_left: f32 = (b as f32).exp2();
    let shift_right: f32 = shift_left.recip();
    x.mul_add(shift_left, 0.5).floor() * shift_right
}

fn agrees<const B: usize>(x: f32) {
    let ours = round::<B>(x);
    let theirs = float_formula(x, B);
    if theirs.is_nan() {
        assert!(ours.is_nan(), "x = {:e} ({:#x}), B = {}", x, x.to_bits(), B);
    } else {
        assert_eq!(ours.to_bits(), theirs.to_bits(), "x = {:e} ({:#x}), B = {}", x, x.to_bits(), B);
    }
}

#[test]
fn round_to_bit_subnormal() {
    let val: f32 = 0.000_000_000_000_000_123_456;

    let rounded = round::<64>(val);

    assert!(0.000_000_000_000_000_123_4 < rounded);
    assert!(rounded < val);
}

#[test]
fn round_to_bit_large_number() {
    let val: f32 = 123.456;

    let rounded = round::<4>(val);

    assert!(123.4 < rounded);
    assert!(rounded < val);
}

#[test]
fn round_to_bit_large_number_outside_of_range() {
    let val: f32 = 123.456;

    let rounded = round::<20>(val);

    assert_eq!(rounded, val);
}

#[test]
fn round_to_bit_exact_values() {
    assert_eq!(round::<4>(123.456), 123.4375);
    assert_eq!(round::<0>(2.5), 3.0);
    assert_eq!(round::<0>(-2.5), -2.0);
    assert_eq!(round::<1>(0.3), 0.5);
    assert_eq!(round::<2>(-0.3), -0.25);
    assert_eq!(round::<0>(0.2).to_bits(), 0);
    assert_eq!(round::<3>(-0.0).to_bits(), 0);
    assert_eq!(round::<3>(f32::INFINITY), f32::INFINITY);
    assert_eq!(round::<3>(f32::NEG_INFINITY), f32::NEG_INFINITY);
    assert!(round::<3>(f32::NAN).is_nan());
    assert!(round::<128>(1.0).is_nan());
}

#[test]
fn round_to_bit_tie_between_integers_goes_to_even() {
    // Above 2^23 the sum x + 1/2 is a tie that the single rounding sends to
    // the even neighbour.
    let odd = 8_388_609.0f32;
    assert_eq!(round::<0>(odd), 8_388_610.0);
    assert_eq!(round::<0>(-odd), -8_388_608.0);
    assert_eq!(round::<0>(8_388_610.0), 8_388_610.0);
    // Just under a half the single rounding of the sum reaches the next
    // integer.
    let below_half = f32::from_bits(0x3eff_ffff);
    assert_eq!(round::<0>(below_half), 1.0);
}

#[test]
fn round_to_bit_overflow_gives_infinity() {
    assert_eq!(round::<10>(f32::MAX), f32::INFINITY);
    assert_eq!(round::<10>(f32::MIN), f32::NEG_INFINITY);
}

#[test]
fn round_to_bit_is_idempotent_on_samples() {
    let values: [f32; 9] = [123.456, -123.456, 1.234_56e-16, 0.3, -0.3, 8_388_609.0, 1.0e30, -7.75, 0.0];
    for v in values {
        let once = round::<4>(v);
        assert_eq!(round::<4>(once).to_bits(), once.to_bits());
        let once = round::<20>(v);
        assert_eq!(round::<20>(once).to_bits(), once.to_bits());
        let once = round::<64>(v);
        assert_eq!(round::<64>(once).to_bits(), once.to_bits());
        let once = round::<0>(v);
        assert_eq!(round::<0>(once).to_bits(), once.to_bits());
    }
}

fn sample_values() -> Vec<f32> {
    let mut out: Vec<f32> = Vec::new();
    let mut state: u32 = 0x1234_5678;
    for _ in 0..4000 {
        state ^= state << 13;
        state ^= state >> 17;
        state ^= state << 5;
        out.push(f32::from_bits(state));
    }
    let special: [u32; 14] = [
        0, 0x8000_0000, 1, 0x8000_0001, 0x007f_ffff, 0x0080_0000, 0x3f00_0000, 0xbf00_0000,
        0x3eff_ffff, 0xbeff_ffff, 0x4b00_0001, 0xcb00_0001, 0x7f7f_ffff, 0xff7f_ffff,
    ];
    for bits in special {
        out.push(f32::from_bits(bits));
    }
    for i in -300i32..300 {
        out.push(i as f32 * 0.173);
        out.push(i as f32 * 0.5);
    }
    out
}

#[test]
fn round_to_bit_matches_float_arithmetic() {
    for x in sample_values() {
        agrees::<0>(x);
        agrees::<1>(x);
        agrees::<4>(x);
        agrees::<8>(x);
        agrees::<20>(x);
        agrees::<23>(x);
        agrees::<24>(x);
        agrees::<30>(x);
        agrees::<64>(x);
        agrees::<100>(x);
        agrees::<126>(x);
        agrees::<127>(x);
        agrees::<128>(x);
        agrees::<200>(x);
    }
}

#[test]
fn round_to_bit_leaves_values_on_a_coarser_grid_alone() {
    // The last significand bit of each value weighs more than 2^-B.
    assert_eq!(round::<20>(123.456f32).to_bits(), 123.456f32.to_bits());
    assert_eq!(round::<0>(16_777_218.0f32), 16_777_218.0);
    assert_eq!(round::<0>(-16_777_218.0f32), -16_777_218.0);
    assert_eq!(round::<3>(1.0e20f32).to_bits(), 1.0e20f32.to_bits());
    assert_eq!(round::<64>(-3.0e10f32).to_bits(), (-3.0e10f32).to_bits());
}

#[test]
fn round_to_bit_tiny_values_round_to_zero() {
    assert_eq!(round::<4>(0.01).to_bits(), 0);
    assert_eq!(round::<4>(-0.01).to_bits(), 0);
    assert_eq!(round::<4>(-0.04), -0.0625);
    assert_eq!(round::<8>(f32::from_bits(1)).to_bits(), 0);
}
