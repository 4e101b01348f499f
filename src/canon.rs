//! Canonical bit patterns of IEEE-754 single-precision values.
//!
//! A value is held as its raw 32-bit encoding: one sign bit, eight exponent
//! bits and twenty-three mantissa bits.
use vstd::prelude::*;

verus! {

/// The encoding of the quiet NaN that stands for every NaN.
pub const CANONICAL_NAN: u32 = 0x7fc0_0000;

/// The encoding of positive zero.
pub const POSITIVE_ZERO: u32 = 0;

/// The biased exponent field of an encoding.
pub open spec fn exponent_field(bits: u32) -> u32 {
    (bits >> 23u32) & 0xffu32
}

/// The mantissa (fraction) field of an encoding.
pub open spec fn mantissa_field(bits: u32) -> u32 {
    bits & 0x7f_ffffu32
}

/// The sign bit of an encoding.
pub open spec fn sign_bit(bits: u32) -> bool {
    bits & 0x8000_0000u32 != 0
}

/// The encoding is a NaN: all exponent bits set and a non-zero payload.
pub open spec fn nan_bits(bits: u32) -> bool {
    exponent_field(bits) == 0xff && mantissa_field(bits) != 0
}

/// The encoding is an infinity of either sign.
pub open spec fn infinite_bits(bits: u32) -> bool {
    exponent_field(bits) == 0xff && mantissa_field(bits) == 0
}

/// The encoding is positive or negative zero.
pub open spec fn zero_bits(bits: u32) -> bool {
    bits & 0x7fff_ffffu32 == 0
}

/// The canonical encoding: one NaN for all NaNs, positive zero for both
/// zeros, and the encoding itself for every other value.
pub open spec fn canon_of(bits: u32) -> u32 {
    if nan_bits(bits) {
        CANONICAL_NAN
    } else if zero_bits(bits) {
        POSITIVE_ZERO
    } else {
        bits
    }
}

/// A single-precision floating-point value, held as its raw encoding.
#[derive(Clone, Copy, Debug, PartialEq, Eq, Hash, Structural)]
pub struct F32Bits {
    pub bits: u32,
}

impl F32Bits {
    /// The value whose encoding is `bits`.
    pub fn from_bits(bits: u32) -> (r: F32Bits)
        ensures
            r.bits == bits,
    {
        F32Bits { bits }
    }

    /// The raw encoding of the value.
    pub fn to_bits(self) -> (r: u32)
        ensures
            r == self.bits,
    {
        self.bits
    }

    /// Whether the value is a NaN.
    pub fn is_nan(self) -> (r: bool)
        ensures
            r == nan_bits(self.bits),
    {
        (self.bits >> 23u32) & 0xffu32 == 0xffu32 && self.bits & 0x7f_ffffu32 != 0
    }

    /// Whether the value is positive or negative zero.
    pub fn is_zero(self) -> (r: bool)
        ensures
            r == zero_bits(self.bits),
    {
        self.bits & 0x7fff_ffffu32 == 0
    }
}

/// A bit encoding under which values that are interchangeable as content
/// (every NaN; the two zeros) share one pattern.
pub trait CanonBits: Sized {
    /// The canonical encoding of a value.
    spec fn canon_spec(self) -> u32;

    fn to_canon_bits(self) -> (r: u32)
        ensures
            r == self.canon_spec(),
    ;
}

impl CanonBits for F32Bits {
    open spec fn canon_spec(self) -> u32 {
        canon_of(self.bits)
    }

    fn to_canon_bits(self) -> (r: u32) {
        if self.is_nan() {
            return CANONICAL_NAN;
        }
        if self.is_zero() {
            return POSITIVE_ZERO;
        }
        self.bits
    }
}

/// Any two NaNs, whatever their sign and payload, have the same canonical
/// encoding.
pub proof fn lemma_nans_share_canon(n0: F32Bits, n1: F32Bits)
    requires
        nan_bits(n0.bits),
        nan_bits(n1.bits),
    ensures
        n0.canon_spec() == n1.canon_spec(),
{
}

/// Positive and negative zero have different raw encodings but the same
/// canonical encoding.
pub proof fn lemma_signed_zeros_share_canon(x: F32Bits, y: F32Bits)
    requires
        zero_bits(x.bits),
        zero_bits(y.bits),
        sign_bit(x.bits) != sign_bit(y.bits),
    ensures
        x.bits != y.bits,
        x.canon_spec() == y.canon_spec(),
{
    let (a, b) = (x.bits, y.bits);
    assert(zero_bits(a) ==> !nan_bits(a)) by (bit_vector);
    assert(zero_bits(b) ==> !nan_bits(b)) by (bit_vector);
}

/// The canonical encoding of a finite non-zero value is its raw encoding.
pub proof fn lemma_finite_nonzero_canon(x: F32Bits)
    requires
        !nan_bits(x.bits),
        !infinite_bits(x.bits),
        !zero_bits(x.bits),
    ensures
        x.canon_spec() == x.bits,
{
}

/// Canonicalising is idempotent: a canonical encoding, read back as a value,
/// is its own canonical encoding.
pub proof fn lemma_canon_idempotent(x: F32Bits)
    ensures
        canon_of(x.canon_spec()) == x.canon_spec(),
{
    assert(!nan_bits(POSITIVE_ZERO) && zero_bits(POSITIVE_ZERO)) by (bit_vector);
    assert(nan_bits(CANONICAL_NAN)) by (bit_vector);
}

} // verus!
