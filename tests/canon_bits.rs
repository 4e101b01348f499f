use forma::canon::{CANONICAL_NAN, POSITIVE_ZERO};
use forma::{CanonBits, F32Bits};

fn canon(x: f32) -> u32 {
    F32Bits::from_bits(x.to_bits()).to_canon_bits()
}

#[test]
fn f32_canon_bits_nan() {
    let nan0 = f32::NAN;
    let nan1 = nan0 + 1.0;

    assert_ne!(nan0, nan1);
    assert_eq!(canon(nan0), canon(nan1));
}

#[test]
fn f32_canon_bits_zero() {
    let neg_zero = -0.0f32;
    let pos_zero = 0.0;

    assert_eq!(neg_zero, pos_zero);
    assert_ne!(neg_zero.to_bits(), pos_zero.to_bits());
    assert_eq!(canon(neg_zero), canon(pos_zero));
}

#[test]
fn canonical_nan_is_the_standard_quiet_nan() {
    assert_eq!(CANONICAL_NAN, f32::NAN.to_bits());
    assert_eq!(POSITIVE_ZERO, 0.0f32.to_bits());
}

#[test]
fn nans_of_every_sign_and_payload_share_one_encoding() {
    let patterns: [u32; 6] = [
        0x7fc0_0000,
        0xffc0_0000,
        0x7f80_0001,
        0xff80_0001,
        0x7fff_ffff,
        0xffff_ffff,
    ];
    for bits in patterns {
        assert!(f32::from_bits(bits).is_nan());
        let x = F32Bits::from_bits(bits);
        assert!(x.is_nan());
        assert_eq!(x.to_canon_bits(), CANONICAL_NAN);
    }
}

#[test]
fn both_zeros_give_positive_zero() {
    assert_eq!(F32Bits::from_bits(0x8000_0000).to_canon_bits(), 0);
    assert_eq!(F32Bits::from_bits(0).to_canon_bits(), 0);
    assert!(F32Bits::from_bits(0x8000_0000).is_zero());
    assert!(!F32Bits::from_bits(1).is_zero());
}

#[test]
fn finite_non_zero_values_keep_their_encoding() {
    let values: [f32; 7] = [1.0, -1.0, 123.456, -2.5e-30, f32::MIN_POSITIVE, f32::MAX, f32::MIN];
    for v in values {
        assert_eq!(canon(v), v.to_bits());
    }
    let smallest_subnormal = f32::from_bits(1);
    assert_eq!(canon(smallest_subnormal), 1);
    assert_eq!(canon(-smallest_subnormal), 0x8000_0001);
}

#[test]
fn infinities_keep_their_encoding() {
    assert_eq!(canon(f32::INFINITY), 0x7f80_0000);
    assert_eq!(canon(f32::NEG_INFINITY), 0xff80_0000);
    assert!(!F32Bits::from_bits(0x7f80_0000).is_nan());
}

#[test]
fn canonicalising_twice_changes_nothing() {
    let values: [f32; 6] = [f32::NAN, -f32::NAN, -0.0, 0.0, 3.5, f32::NEG_INFINITY];
    for v in values {
        let once = canon(v);
        assert_eq!(F32Bits::from_bits(once).to_canon_bits(), once);
    }
}

#[test]
fn bits_round_trip() {
    assert_eq!(F32Bits::from_bits(0x4049_0fdb).to_bits(), 0x4049_0fdb);
}
