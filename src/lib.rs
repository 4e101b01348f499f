//! Small numeric primitives: canonical bit patterns of single-precision
//! values, rounding of such values to a fixed number of fractional bits,
//! and ceiling division on unsigned integers.
pub mod canon;
pub mod div_ceil;
pub mod round;

pub use canon::{CanonBits, F32Bits};
pub use div_ceil::DivCeil;
pub use round::RoundToBit;
