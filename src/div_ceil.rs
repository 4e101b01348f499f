//! Ceiling division on unsigned integers.
use vstd::prelude::*;

verus! {

/// The quotient `a / b` rounded up: the number of parts of size `b` that
/// are needed to cover an extent of `a`.
pub open spec fn ceil_div(a: int, b: int) -> int {
    (a + b - 1) / b
}

/// Division that rounds the quotient up rather than down.
///
/// The divisor must be non-zero. The result is computed without forming
/// `a + b - 1`, so it is exact over the whole range of the type.
pub trait DivCeil: Sized {
    /// The mathematical value of an operand.
    spec fn int_value(self) -> int;

    fn div_ceil_(self, other: Self) -> (r: Self)
        requires
            other.int_value() > 0,
        ensures
            r.int_value() == ceil_div(self.int_value(), other.int_value()),
    ;
}

/// `a / b` plus one when the division leaves a remainder equals the ceiling
/// of `a / b`, and stays no larger than `a` when `b > 0`.
proof fn lemma_ceil_div_split(a: int, b: int)
    requires
        a >= 0,
        b > 0,
    ensures
        ceil_div(a, b) == a / b + (if a % b != 0 { 1int } else { 0int }),
        a % b != 0 ==> a / b + 1 <= a,
{
    assert(a == b * (a / b) + a % b && 0 <= a % b < b) by (nonlinear_arith)
        requires
            b > 0,
    ;
    assert(ceil_div(a, b) == a / b + (if a % b != 0 { 1int } else { 0int })) by (nonlinear_arith)
        requires
            a == b * (a / b) + a % b,
            0 <= a % b < b,
            b > 0,
            ceil_div(a, b) == (a + b - 1) / b,
    ;
    assert(a % b != 0 ==> a / b + 1 <= a) by (nonlinear_arith)
        requires
            a == b * (a / b) + a % b,
            0 <= a % b < b,
            b > 0,
            a >= 0,
    ;
}

impl DivCeil for u32 {
    open spec fn int_value(self) -> int {
        self as int
    }

    fn div_ceil_(self, other: u32) -> (r: u32) {
        proof {
            lemma_ceil_div_split(self as int, other as int);
        }
        let q: u32 = self / other;
        if self % other != 0 {
            q + 1
        } else {
            q
        }
    }
}

impl DivCeil for usize {
    open spec fn int_value(self) -> int {
        self as int
    }

    fn div_ceil_(self, other: usize) -> (r: usize) {
        proof {
            lemma_ceil_div_split(self as int, other as int);
        }
        let q: usize = self / other;
        if self % other != 0 {
            q + 1
        } else {
            q
        }
    }
}

} // verus!
