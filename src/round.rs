//! Rounding a single-precision value to a fixed number of fractional bits.
//!
//! The value is `floor(x * 2^B + 1/2) * 2^-B`, where the sum is rounded once
//! to single precision (round to nearest, ties to even) before the floor, as
//! a fused multiply-add does, and `2^B` is itself a single-precision value
//! (infinite once `B` reaches 128). Everything is computed exactly on the
//! encoding with integer arithmetic.
use vstd::prelude::*;
use vstd::std_specs::bits::{axiom_u64_leading_zeros, u64_leading_zeros};
use crate::canon::{
    exponent_field, mantissa_field, nan_bits, sign_bit, zero_bits, F32Bits, CANONICAL_NAN,
};

verus! {

/// The encoding of positive infinity.
pub const POSITIVE_INFINITY: u32 = 0x7f80_0000;

/// The encoding of negative infinity.
pub const NEGATIVE_INFINITY: u32 = 0xff80_0000;

/// The significand of a finite encoding: its mantissa, with the implicit
/// leading one of a normal value.
pub open spec fn significand(bits: u32) -> u64 {
    if exponent_field(bits) == 0 {
        mantissa_field(bits) as u64
    } else {
        (mantissa_field(bits) + 0x80_0000) as u64
    }
}

/// The weight of the last significand bit: a finite value is
/// `significand * 2^lsb_exponent`, with the sign bit's sign.
pub open spec fn lsb_exponent(bits: u32) -> int {
    if exponent_field(bits) == 0 {
        -149
    } else {
        exponent_field(bits) - 150
    }
}

/// The number of significant bits of `a`.
pub open spec fn bit_length(a: u64) -> int {
    64 - u64_leading_zeros(a)
}

/// `a` rounded to 24 significant bits, ties to even.
pub open spec fn round_to_24_bits(a: u64) -> u64 {
    if bit_length(a) <= 24 {
        a
    } else {
        let d = (bit_length(a) - 24) as u64;
        let q = a >> d;
        let rem = a & ((1u64 << d) - 1u64) as u64;
        let half = 1u64 << (d - 1u64) as u64;
        let up = rem > half || (rem == half && q & 1u64 == 1u64);
        let q2 = if up {
            (q + 1) as u64
        } else {
            q
        };
        q2 << d
    }
}

/// The encoding of `a * 2^-b`, negated when `neg`, for a value that single
/// precision holds exactly (`a` below `2^24`, `b` at most 127).
pub open spec fn encode_scaled(neg: bool, a: u64, b: u64) -> u32 {
    if a == 0 {
        0
    } else {
        let sign: u64 = if neg {
            0x8000_0000
        } else {
            0
        };
        let k = bit_length(a);
        let top = k - 1 - b;
        if top >= -126 {
            let exp = (top + 127) as u64;
            let mant = if k <= 24 {
                a << (24 - k) as u64
            } else {
                a >> (k - 24) as u64
            };
            (sign | ((exp & 0xff) << 23u64) | (mant & 0x7f_ffff)) as u32
        } else {
            let mant = a << (149 - b) as u64;
            (sign | (mant & 0x7f_ffff)) as u32
        }
    }
}

/// The result is a NaN: the input is a NaN, or `2^B` is infinite in single
/// precision, so that its reciprocal is zero and the last product is
/// `0 * infinity` or a NaN.
pub open spec fn rounds_to_nan(bits: u32, b: int) -> bool {
    nan_bits(bits) || b >= 128
}

/// The encoding of `floor(x * 2^b + 1/2) * 2^-b` for an input that does not
/// round to a NaN (`b` at most 127).
pub open spec fn rounded_bits(bits: u32, b: int) -> u32 {
    if exponent_field(bits) == 0xff || zero_bits(bits) {
        // Infinities pass through; both zeros give `floor(1/2) = +0`.
        if zero_bits(bits) {
            0
        } else {
            bits
        }
    } else {
        let m = significand(bits);
        let e = lsb_exponent(bits) + b;
        if e >= 0 {
            // `x * 2^b` is an integer: adding a half changes nothing after the
            // floor, unless the sum is a tie between two integers (between
            // 2^23 and 2^24) that goes to the even one, or it overflows.
            if bit_length(m) + e > 128 {
                if sign_bit(bits) {
                    NEGATIVE_INFINITY
                } else {
                    POSITIVE_INFINITY
                }
            } else if e == 0 && m & 1 == 1 && m > 0x80_0000 {
                if sign_bit(bits) {
                    (bits - 1) as u32
                } else {
                    (bits + 1) as u32
                }
            } else {
                bits
            }
        } else if e < -26 {
            // `|x * 2^b| < 1/8`: the rounded sum lies in (3/8, 5/8).
            0
        } else {
            // In units of 2^-26 the sum is `2^25 + y` or `2^25 - y`.
            let y = m << (e + 26) as u64;
            let half = 1u64 << 25u64;
            if !sign_bit(bits) {
                encode_scaled(false, round_to_24_bits((half + y) as u64) >> 26u64, b as u64)
            } else if y <= half {
                encode_scaled(false, round_to_24_bits((half - y) as u64) >> 26u64, b as u64)
            } else {
                // A negative sum: its floor rounds the magnitude up.
                let r = round_to_24_bits((y - half) as u64);
                let f = if r & 0x3ff_ffff != 0 {
                    ((r >> 26u64) + 1) as u64
                } else {
                    r >> 26u64
                };
                encode_scaled(true, f, b as u64)
            }
        }
    }
}

/// Facts about the fields of an encoding.
proof fn lemma_encoding_fields(bits: u32)
    ensures
        bits & 0x7f_ffffu32 <= 0x7f_ffffu32,
        mantissa_field(bits) <= 0x7f_ffff,
        exponent_field(bits) == (bits >> 23u32) & 0xffu32,
        exponent_field(bits) != 0xff ==> !nan_bits(bits),
        exponent_field(bits) != 0 || mantissa_field(bits) != 0 <==> !zero_bits(bits),
        sign_bit(bits) <==> bits & 0x8000_0000u32 != 0,
        sign_bit(bits) ==> bits >= 1,
        !sign_bit(bits) ==> bits < 0xffff_ffffu32,
        mantissa_field(bits) != 0 ==> bits >= 1,
        nan_bits(bits) ==> nan_bits(bits | 0x40_0000u32),
{
    assert({
        &&& bits & 0x7f_ffffu32 <= 0x7f_ffffu32
        &&& mantissa_field(bits) <= 0x7f_ffff
        &&& exponent_field(bits) != 0xff ==> !nan_bits(bits)
        &&& (exponent_field(bits) != 0 || mantissa_field(bits) != 0 <==> !zero_bits(bits))
        &&& (sign_bit(bits) <==> bits & 0x8000_0000u32 != 0)
        &&& sign_bit(bits) ==> bits >= 1
        &&& !sign_bit(bits) ==> bits < 0xffff_ffffu32
        &&& mantissa_field(bits) != 0 ==> bits >= 1
        &&& nan_bits(bits) ==> nan_bits(bits | 0x40_0000u32)
    }) by (bit_vector);
}

/// Facts about the constant encodings and shifts in use.
proof fn lemma_constants()
    ensures
        !nan_bits(0u32) && zero_bits(0u32),
        nan_bits(CANONICAL_NAN),
        exponent_field(POSITIVE_INFINITY) == 0xff && !nan_bits(POSITIVE_INFINITY) && !zero_bits(
            POSITIVE_INFINITY),
        exponent_field(NEGATIVE_INFINITY) == 0xff && !nan_bits(NEGATIVE_INFINITY) && !zero_bits(
            NEGATIVE_INFINITY),
        1u64 << 25u64 == 0x200_0000u64,
        0x40_0000u64 << 4u64 == 1u64 << 26u64,
{
    assert({
        &&& !nan_bits(0u32) && zero_bits(0u32)
        &&& nan_bits(0x7fc0_0000u32)
        &&& exponent_field(0x7f80_0000u32) == 0xff && !nan_bits(0x7f80_0000u32) && !zero_bits(
            0x7f80_0000u32)
        &&& exponent_field(0xff80_0000u32) == 0xff && !nan_bits(0xff80_0000u32) && !zero_bits(
            0xff80_0000u32)
        &&& 1u64 << 25u64 == 0x200_0000u64
        &&& 0x40_0000u64 << 4u64 == 1u64 << 26u64
    }) by (bit_vector);
}

/// The bit length of `a` marks its top set bit.
proof fn lemma_bit_length(a: u64)
    ensures
        0 <= bit_length(a) <= 64,
        a == 0 <==> bit_length(a) == 0,
        a >> (bit_length(a) as u64) == 0,
        a != 0 ==> (a >> (bit_length(a) - 1) as u64) & 1 != 0,
{
    axiom_u64_leading_zeros(a);
}

/// Rounding to 24 bits returns a value with at most 24 significant bits
/// nearest to `a`: its bits below the lowest kept bit, of weight `u`, are
/// clear, it lies within `u / 2` of `a`, and on a tie its lowest kept bit is
/// clear (ties to even).
pub proof fn lemma_round_to_24_bits_is_nearest(a: u64)
    requires
        a < 0x8000_0000_0000_0000,
    ensures
        bit_length(a) <= 24 ==> round_to_24_bits(a) == a,
        bit_length(a) > 24 ==> ({
            let d = (bit_length(a) - 24) as u64;
            let u = 1u64 << d;
            let r = round_to_24_bits(a);
            &&& r & (u - 1) as u64 == 0
            &&& r <= a + (u >> 1u64)
            &&& a <= r + (u >> 1u64)
            &&& (r == a + (u >> 1u64) || a == r + (u >> 1u64)) ==> (r >> d) & 1 == 0
        }),
{
    lemma_bit_length(a);
    let k = bit_length(a) as u64;
    if k > 24 {
        let d = (k - 24) as u64;
        let u = 1u64 << d;
        let r = round_to_24_bits(a);
        let q = a >> d;
        let rem = a & (u - 1) as u64;
        let half = 1u64 << (d - 1u64) as u64;
        assert(a < 0x8000_0000_0000_0000u64 && a >> k == 0 && 24 < k && k <= 64 && d == k - 24 && u
            == 1u64 << d && q == a >> d && rem == a & (u - 1) as u64 && half == 1u64 << (d
            - 1u64) as u64 && r == (if (rem > half || (rem == half && q & 1u64 == 1u64)) {
            ((q + 1) as u64) << d
        } else {
            q << d
        }) ==> {
            &&& r & (u - 1) as u64 == 0
            &&& half == u >> 1u64
            &&& r <= (a + half) as u64
            &&& a <= (r + half) as u64
            &&& (r == (a + half) as u64 || a == (r + half) as u64) ==> (r >> d) & 1 == 0
        }) by (bit_vector);
    }
}

/// Rounding to 24 bits keeps a value at most `2^49` at most `2^49`.
proof fn lemma_round_to_24_bits_bound(w: u64)
    requires
        w <= 0x2_0000_0000_0000,
    ensures
        round_to_24_bits(w) <= 0x2_0000_0000_0000,
{
    lemma_bit_length(w);
    let k = bit_length(w) as u64;
    if k > 24 {
        let d = (k - 24) as u64;
        assert(w >> k == 0 && 24 < k && k <= 49 && d == k - 24 ==> (((w >> d) + 1) as u64) << d
            <= 0x2_0000_0000_0000u64) by (bit_vector);
        assert(w <= 0x2_0000_0000_0000u64 && (w >> (k - 1) as u64) & 1 != 0 && 49 < k && k <= 64
            && d == k - 24 ==> w & ((1u64 << d) - 1u64) as u64 == 0) by (bit_vector);
        assert(1 <= d && d <= 40 ==> 1u64 << (d - 1u64) as u64 >= 1) by (bit_vector);
        assert(w <= 0x2_0000_0000_0000u64 && d <= 40 ==> (w >> d) << d <= w) by (bit_vector);
    }
}

/// Rounding to 24 bits leaves `c * 2^25` unchanged when `c` has at most
/// 24 bits.
proof fn lemma_round_to_24_bits_exact(c: u64)
    requires
        c < 0x100_0000,
    ensures
        round_to_24_bits(c << 25u64) == c << 25u64,
{
    let v = c << 25u64;
    lemma_bit_length(v);
    let k = bit_length(v) as u64;
    if k > 24 {
        let d = (k - 24) as u64;
        assert(c < 0x100_0000u64 && v == c << 25u64 && v >> k == 0 && (v >> (k - 1) as u64) & 1
            != 0 && 24 < k && k <= 64 && d == k - 24 ==> v & ((1u64 << d) - 1u64) as u64 == 0 && (v
            >> d) << d == v) by (bit_vector);
        assert(1 <= d && d <= 40 ==> 1u64 << (d - 1u64) as u64 >= 1) by (bit_vector);
    }
}

/// An encoding that `encode_scaled` gives for an integer of at most 23 bits
/// is a fixed point of the rounding.
proof fn lemma_encoded_is_fixed(neg: bool, a: u64, b: int)
    requires
        a <= 0x80_0000,
        0 <= b <= 127,
    ensures
        !nan_bits(encode_scaled(neg, a, b as u64)),
        rounded_bits(encode_scaled(neg, a, b as u64), b) == encode_scaled(neg, a, b as u64),
{
    let r = encode_scaled(neg, a, b as u64);
    lemma_constants();
    if a == 0 {
        return;
    }
    lemma_bit_length(a);
    let k = bit_length(a) as u64;
    assert(a <= 0x80_0000u64 && (a >> (k - 1) as u64) & 1 != 0 && 1 <= k && k <= 64 ==> k <= 24)
        by (bit_vector);
    let sign: u64 = if neg {
        0x8000_0000
    } else {
        0
    };
    let bb = b as u64;
    let top = k - 1 - b;
    let m = significand(r);
    let e = lsb_exponent(r) + b;
    if top >= -126 {
        let exp = (top + 127) as u64;
        let mant = a << (24 - k) as u64;
        let v = sign | ((exp & 0xff) << 23u64) | (mant & 0x7f_ffff);
        assert(r == v as u32);
        assert((sign == 0 || sign == 0x8000_0000u64) && 1 <= exp && exp <= 150 && a >> k == 0 && (a
            >> (k - 1) as u64) & 1 != 0 && 1 <= k && k <= 24 && mant == a << (24 - k) as u64 && v
            == sign | ((exp & 0xff) << 23u64) | (mant & 0x7f_ffff) ==> {
            let rr = v as u32;
            &&& exponent_field(rr) == exp as u32
            &&& mantissa_field(rr) as u64 + 0x80_0000 == mant
            &&& (sign_bit(rr) <==> sign != 0)
        }) by (bit_vector);
        assert(exponent_field(r) == exp as u32);
        assert(significand(r) == mant);
        assert(sign_bit(r) == neg);
        assert(e == k - 24);
        assert(1 <= k && k <= 24 && a >> k == 0 && mant == a << (24 - k) as u64 && k < 24 ==> mant
            << (k + 2) as u64 == a << 26u64 && a < 0x80_0000) by (bit_vector);
    } else {
        let mant = a << (149 - bb) as u64;
        let v = sign | (mant & 0x7f_ffff);
        assert(r == v as u32);
        assert(k == 1 && a >> k == 0 && a != 0 ==> a == 1) by (bit_vector);
        assert((sign == 0 || sign == 0x8000_0000u64) && mant == 1u64 << 22u64 && v == sign | (mant
            & 0x7f_ffff) ==> {
            let rr = v as u32;
            &&& exponent_field(rr) == 0
            &&& mantissa_field(rr) == 0x40_0000
            &&& (sign_bit(rr) <==> sign != 0)
        }) by (bit_vector);
        assert(significand(r) == 0x40_0000);
        assert(sign_bit(r) == neg);
        assert(e == -22);
    }
    lemma_encoding_fields(r);
    assert(exponent_field(r) != 0xff && !zero_bits(r) && !nan_bits(r));
    lemma_bit_length(m);
    if e < 0 {
        assert(a < 0x80_0000);
        assert(m << (e + 26) as u64 == a << 26u64);
        let c = ((a << 1u64) + 1) as u64;
        assert(1 <= a && a < 0x80_0000u64 && c == ((a << 1u64) + 1) as u64 ==> (1u64 << 25u64) + (a
            << 26u64) == c << 25u64 && c < 0x100_0000u64) by (bit_vector);
        lemma_round_to_24_bits_exact(c);
        assert(1 <= a && a < 0x80_0000u64 && c == ((a << 1u64) + 1) as u64 ==> ((c << 25u64) >> 26u64
            == a)) by (bit_vector);
        let c2 = ((a << 1u64) - 1) as u64;
        assert(1 <= a && a < 0x80_0000u64 && c2 == ((a << 1u64) - 1) as u64 ==> (a << 26u64) - (1u64
            << 25u64) == c2 << 25u64 && c2 < 0x100_0000u64 && a << 26u64 > 1u64 << 25u64) by (bit_vector);
        lemma_round_to_24_bits_exact(c2);
        assert(1 <= a && a < 0x80_0000u64 && c2 == ((a << 1u64) - 1) as u64 ==> (c2 << 25u64) & 0x3ff_ffff
            != 0 && ((c2 << 25u64) >> 26u64) + 1 == a) by (bit_vector);
    } else {
        assert(k == 24 && (a >> (k - 1) as u64) & 1 != 0 && a <= 0x80_0000u64 ==> a == 0x80_0000u64
            && a << (24 - k) as u64 == a) by (bit_vector);
        assert(m == 0x80_0000);
    }
}

/// The encoding that rounding gives is never a NaN when the input does not
/// round to one, and rounding it again changes nothing.
proof fn lemma_rounded_is_fixed(bits: u32, b: int)
    requires
        !rounds_to_nan(bits, b),
        0 <= b,
    ensures
        !nan_bits(rounded_bits(bits, b)),
        rounded_bits(rounded_bits(bits, b), b) == rounded_bits(bits, b),
{
    let r = rounded_bits(bits, b);
    lemma_constants();
    lemma_encoding_fields(bits);
    if exponent_field(bits) == 0xff || zero_bits(bits) {
        return;
    }
    let m = significand(bits);
    let e = lsb_exponent(bits) + b;
    assert(m < 0x100_0000);
    if e >= 0 {
        if bit_length(m) + e > 128 {
        } else if e == 0 && m & 1 == 1 && m > 0x80_0000 {
            let mf = mantissa_field(bits);
            let ef = exponent_field(bits);
            assert(ef != 0 && ef != 0xff);
            assert(mf != 0);
            assert(ef == exponent_field(bits) && mf == mantissa_field(bits) && ef != 0 && ef < 0xff
                && mf != 0x7f_ffff ==> exponent_field((bits + 1) as u32) == ef
                && mantissa_field((bits + 1) as u32) == mf + 1 && sign_bit((bits + 1) as u32)
                == sign_bit(bits)) by (bit_vector);
            assert(ef == exponent_field(bits) && mf == mantissa_field(bits) && ef != 0 && ef < 0xfe
                && mf == 0x7f_ffff ==> exponent_field((bits + 1) as u32) == ef
                + 1 && mantissa_field((bits + 1) as u32) == 0) by (bit_vector);
            assert(ef == exponent_field(bits) && mf == mantissa_field(bits) && ef != 0 && mf != 0
                ==> exponent_field((bits - 1) as u32) == ef && mantissa_field(
                (bits - 1) as u32) == mf - 1 && sign_bit((bits - 1) as u32) == sign_bit(bits))
                by (bit_vector);
            lemma_encoding_fields(r);
            assert(ef <= 150);
            lemma_bit_length(significand(r));
            let sr = significand(r);
            assert(m & 1 == m % 2 && sr & 1 == sr % 2) by (bit_vector);
            assert(sr == m + 1 || sr == m - 1 || sr == 0x80_0000);
            assert(sr % 2 == 0);
        }
    } else if e >= -26 {
        let y = m << (e + 26) as u64;
        let half = 1u64 << 25u64;
        let s = (e + 26) as u64;
        assert(m < 0x100_0000u64 && s <= 25 ==> m << s <= 0x1_ffff_fe00_0000u64) by (bit_vector);
        if !sign_bit(bits) {
            let w = (half + y) as u64;
            lemma_round_to_24_bits_bound(w);
            let rw = round_to_24_bits(w);
            assert(rw <= 0x2_0000_0000_0000u64 ==> rw >> 26u64 <= 0x80_0000) by (bit_vector);
            lemma_encoded_is_fixed(false, rw >> 26u64, b);
        } else if y <= half {
            let w = (half - y) as u64;
            lemma_round_to_24_bits_bound(w);
            let rw = round_to_24_bits(w);
            assert(rw <= 0x2_0000_0000_0000u64 ==> rw >> 26u64 <= 0x80_0000) by (bit_vector);
            lemma_encoded_is_fixed(false, rw >> 26u64, b);
        } else {
            let w = (y - half) as u64;
            lemma_round_to_24_bits_bound(w);
            let rw = round_to_24_bits(w);
            let f = if rw & 0x3ff_ffff != 0 {
                ((rw >> 26u64) + 1) as u64
            } else {
                rw >> 26u64
            };
            assert(rw <= 0x2_0000_0000_0000u64 ==> rw >> 26u64 <= 0x80_0000 && (rw & 0x3ff_ffff != 0
                ==> (rw >> 26u64) < 0x80_0000)) by (bit_vector);
            lemma_encoded_is_fixed(true, f, b);
        }
    }
}

/// Rounding twice to the same number of bits gives what rounding once
/// gives; an input that rounds to a NaN rounds to a NaN again.
pub proof fn lemma_round_to_bit_idempotent(x: F32Bits, b: nat, once: F32Bits, twice: F32Bits)
    requires
        x.round_spec(b, once),
        once.round_spec(b, twice),
    ensures
        nan_bits(once.bits) ==> nan_bits(twice.bits),
        !nan_bits(once.bits) ==> twice == once,
{
    if !rounds_to_nan(x.bits, b as int) {
        lemma_rounded_is_fixed(x.bits, b as int);
    }
}

/// When the last significand bit of `x` weighs more than `2^-b` (so that a
/// grid of `2^-b` is finer than the values near `x`), rounding returns `x`
/// itself, as long as `x * 2^b` stays below `2^128`.
pub proof fn lemma_round_to_bit_fine_grid_is_identity(x: F32Bits, b: nat, r: F32Bits)
    requires
        x.round_spec(b, r),
        b < 128,
        exponent_field(x.bits) != 0xff,
        lsb_exponent(x.bits) + b >= 1,
        bit_length(significand(x.bits)) + lsb_exponent(x.bits) + b <= 128,
    ensures
        r == x,
{
    lemma_encoding_fields(x.bits);
}

/// The number of significant bits of `a`.
fn bit_len(a: u64) -> (r: u64)
    ensures
        r as int == bit_length(a),
        r <= 64,
        a != 0 ==> r >= 1,
{
    proof {
        axiom_u64_leading_zeros(a);
    }
    64 - a.leading_zeros() as u64
}

/// `a` rounded to 24 significant bits, ties to even.
fn round_24(a: u64) -> (r: u64)
    ensures
        r == round_to_24_bits(a),
{
    let k = bit_len(a);
    if k <= 24 {
        a
    } else {
        let d: u64 = k - 24;
        assert(1u64 <= d && d <= 40 ==> a >> d < 0xffff_ffff_ffff_ffffu64) by (bit_vector);
        assert(1u64 <= d && d <= 40 ==> (1u64 << d) >= 1u64) by (bit_vector);
        let q = a >> d;
        let rem = a & ((1u64 << d) - 1u64);
        let half = 1u64 << (d - 1u64);
        let up = rem > half || (rem == half && q & 1u64 == 1u64);
        let q2 = if up {
            q + 1
        } else {
            q
        };
        q2 << d
    }
}

/// The encoding of `a * 2^-b`, negated when `neg`.
fn encode(neg: bool, a: u64, b: u64) -> (r: u32)
    requires
        b <= 127,
    ensures
        r == encode_scaled(neg, a, b),
{
    if a == 0 {
        return 0;
    }
    let sign: u64 = if neg {
        0x8000_0000
    } else {
        0
    };
    let k = bit_len(a);
    let top: i64 = k as i64 - 1 - b as i64;
    if top >= -126 {
        let exp = (top + 127) as u64;
        let mant = if k <= 24 {
            a << (24 - k)
        } else {
            a >> (k - 24)
        };
        let v = sign | ((exp & 0xff) << 23u64) | (mant & 0x7f_ffff);
        assert((sign == 0 || sign == 0x8000_0000) ==> sign | ((exp & 0xff) << 23u64) | (mant
            & 0x7f_ffff) <= 0xffff_ffffu64) by (bit_vector);
        v as u32
    } else {
        let mant = a << (149 - b);
        let v = sign | (mant & 0x7f_ffff);
        assert((sign == 0 || sign == 0x8000_0000) ==> sign | (mant & 0x7f_ffff)
            <= 0xffff_ffffu64) by (bit_vector);
        v as u32
    }
}

/// Rounding to a grid of `2^-B`, half up.
pub trait RoundToBit: Sized {
    /// `r` is an outcome of rounding `self` to `b` fractional bits.
    spec fn round_spec(self, b: nat, r: Self) -> bool;

    fn round_to_bit<const B: usize>(self) -> (r: Self)
        ensures
            self.round_spec(B as nat, r),
    ;
}

impl RoundToBit for F32Bits {
    open spec fn round_spec(self, b: nat, r: F32Bits) -> bool {
        if rounds_to_nan(self.bits, b as int) {
            nan_bits(r.bits)
        } else {
            r.bits == rounded_bits(self.bits, b as int)
        }
    }

    fn round_to_bit<const B: usize>(self) -> (r: F32Bits) {
        let bits = self.bits;
        if self.is_nan() {
            let quiet = bits | 0x40_0000;
            proof {
                lemma_encoding_fields(bits);
            }
            return F32Bits { bits: quiet };
        }
        if B >= 128 {
            proof {
                lemma_constants();
            }
            return F32Bits { bits: CANONICAL_NAN };
        }
        let b = B as u64;
        proof {
            lemma_encoding_fields(bits);
            lemma_constants();
        }
        let exp_field = (bits >> 23u32) & 0xffu32;
        if exp_field == 0xff {
            return self;
        }
        if self.is_zero() {
            return F32Bits { bits: 0 };
        }
        let man = bits & 0x7f_ffffu32;
        let m: u64 = if exp_field == 0 {
            man as u64
        } else {
            (man + 0x80_0000) as u64
        };
        let lsb: i64 = if exp_field == 0 {
            -149
        } else {
            exp_field as i64 - 150
        };
        let e: i64 = lsb + b as i64;
        let negative = bits & 0x8000_0000u32 != 0;
        if e >= 0 {
            if bit_len(m) as i64 + e > 128 {
                if negative {
                    F32Bits { bits: NEGATIVE_INFINITY }
                } else {
                    F32Bits { bits: POSITIVE_INFINITY }
                }
            } else if e == 0 && m & 1 == 1 && m > 0x80_0000 {
                if negative {
                    F32Bits { bits: bits - 1 }
                } else {
                    F32Bits { bits: bits + 1 }
                }
            } else {
                self
            }
        } else if e < -26 {
            F32Bits { bits: 0 }
        } else {
            let s = (e + 26) as u64;
            let y = m << s;
            let half: u64 = 1u64 << 25u64;
            assert(m < 0x100_0000u64 && s <= 25u64 ==> m << s < 0x2_0000_0000_0000u64) by (bit_vector);
            if !negative {
                F32Bits { bits: encode(false, round_24(half + y) >> 26u64, b) }
            } else if y <= half {
                F32Bits { bits: encode(false, round_24(half - y) >> 26u64, b) }
            } else {
                let r = round_24(y - half);
                assert(r >> 26u64 < 0xffff_ffff_ffffu64) by (bit_vector);
                let f = if r & 0x3ff_ffff != 0 {
                    (r >> 26u64) + 1
                } else {
                    r >> 26u64
                };
                F32Bits { bits: encode(true, f, b) }
            }
        }
    }
}

} // verus!
