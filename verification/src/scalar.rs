//! The element type of the real-valued matrices.
//!
//! The matrix code moves, multiplies and adds elements only through these operations, so its
//! contracts hold for every element type, single-precision floats among them: each result is
//! stated as the exact expression of operations that produces it.

use crate::arith::{lemma_wrapping_ops, wrap32};
use vstd::prelude::*;

verus! {

/// An element of a real-valued matrix.
///
/// Each operation comes with a function of the same meaning that contracts use; the operation
/// returns what that function says.
pub trait Scalar: Copy + Send + Sync {
    spec fn spec_zero() -> Self;

    spec fn spec_one() -> Self;

    spec fn spec_plus(self, rhs: Self) -> Self;

    spec fn spec_times(self, rhs: Self) -> Self;

    spec fn spec_mul_add(self, x: Self, y: Self) -> Self;

    spec fn spec_is_zero(self) -> bool;

    spec fn spec_to_bits(self) -> u32;

    spec fn spec_from_bits(bits: u32) -> Self;

    /// Elements and their 32-bit representations stand for each other.
    proof fn lemma_bits(bits: u32, x: Self)
        ensures
            Self::spec_from_bits(bits).spec_to_bits() == bits,
            Self::spec_from_bits(x.spec_to_bits()) == x,
    ;

    /// The additive identity, from which products are accumulated.
    fn zero() -> (r: Self)
        ensures
            r == Self::spec_zero(),
            Self::spec_zero().spec_is_zero(),
    ;

    /// The factor that keeps an output element in an accumulation.
    fn one() -> (r: Self)
        ensures
            r == Self::spec_one(),
    ;

    /// `self + rhs`.
    fn plus(self, rhs: Self) -> (r: Self)
        ensures
            r == self.spec_plus(rhs),
    ;

    /// `self * rhs`.
    fn times(self, rhs: Self) -> (r: Self)
        ensures
            r == self.spec_times(rhs),
    ;

    /// `self + x * y`, the accumulation step of a kernel.
    fn mul_add(self, x: Self, y: Self) -> (r: Self)
        ensures
            r == self.spec_mul_add(x, y),
    ;

    /// Whether `self` is zero.
    fn is_zero(self) -> (r: bool)
        ensures
            r == self.spec_is_zero(),
    ;

    /// The 32-bit representation.
    fn to_bits(self) -> (r: u32)
        ensures
            r == self.spec_to_bits(),
    ;

    /// The element with the given 32-bit representation.
    fn from_bits(bits: u32) -> (r: Self)
        ensures
            r == Self::spec_from_bits(bits),
            r.spec_to_bits() == bits,
    ;
}

/// An element that can be quantized to a byte, given a scale and a zero point.
pub trait Activation: Scalar {
    spec fn spec_from_i32(x: i32) -> Self;

    spec fn spec_lesser(self, other: Self) -> Self;

    spec fn spec_greater(self, other: Self) -> Self;

    spec fn spec_scale(lo: Self, hi: Self) -> Self;

    spec fn spec_zero_point(lo: Self, hi: Self) -> i32;

    spec fn spec_quantize(self, scale: Self, zero_point: i32) -> u8;

    /// The element nearest to the integer `x`.
    fn from_i32(x: i32) -> (r: Self)
        ensures
            r == Self::spec_from_i32(x),
    ;

    /// The smaller of two elements.
    fn lesser(self, other: Self) -> (r: Self)
        ensures
            r == self.spec_lesser(other),
    ;

    /// The larger of two elements.
    fn greater(self, other: Self) -> (r: Self)
        ensures
            r == self.spec_greater(other),
    ;

    /// The quantization step for values between `lo` and `hi`.
    fn scale(lo: Self, hi: Self) -> (r: Self)
        ensures
            r == Self::spec_scale(lo, hi),
    ;

    /// The byte that stands for zero when values lie between `lo` and `hi`.
    fn zero_point(lo: Self, hi: Self) -> (r: i32)
        ensures
            r == Self::spec_zero_point(lo, hi),
    ;

    /// The byte that stands for `self`.
    fn quantize(self, scale: Self, zero_point: i32) -> (r: u8)
        ensures
            r == self.spec_quantize(scale, zero_point),
    ;
}

/// Integers modulo 2^32 as matrix elements: every operation is exact in this arithmetic.
impl Scalar for i32 {
    open spec fn spec_zero() -> i32 {
        0
    }

    open spec fn spec_one() -> i32 {
        1
    }

    open spec fn spec_plus(self, rhs: i32) -> i32 {
        wrap32(self + rhs)
    }

    open spec fn spec_times(self, rhs: i32) -> i32 {
        wrap32(self * rhs)
    }

    open spec fn spec_mul_add(self, x: i32, y: i32) -> i32 {
        wrap32(self + x * y)
    }

    open spec fn spec_is_zero(self) -> bool {
        self == 0
    }

    open spec fn spec_to_bits(self) -> u32 {
        self as u32
    }

    open spec fn spec_from_bits(bits: u32) -> i32 {
        bits as i32
    }

    proof fn lemma_bits(bits: u32, x: i32) {
        assert((bits as i32) as u32 == bits) by (bit_vector);
        assert((x as u32) as i32 == x) by (bit_vector);
    }

    fn zero() -> i32 {
        0
    }

    fn one() -> i32 {
        1
    }

    fn plus(self, rhs: i32) -> i32 {
        proof {
            lemma_wrapping_ops(self, rhs);
        }
        self.wrapping_add(rhs)
    }

    fn times(self, rhs: i32) -> i32 {
        proof {
            lemma_wrapping_ops(self, rhs);
        }
        self.wrapping_mul(rhs)
    }

    fn mul_add(self, x: i32, y: i32) -> i32 {
        let p: i32 = x.wrapping_mul(y);
        proof {
            lemma_wrapping_ops(x, y);
            lemma_wrapping_ops(self, p);
            crate::arith::lemma_wrap_add(x * y, self as int);
        }
        self.wrapping_add(p)
    }

    fn is_zero(self) -> bool {
        self == 0
    }

    fn to_bits(self) -> u32 {
        self as u32
    }

    fn from_bits(bits: u32) -> i32 {
        proof {
            i32::lemma_bits(bits, 0);
        }
        bits as i32
    }
}

/// `x` moved to the nearest byte value.
pub open spec fn clamp_byte(x: int) -> u8 {
    if x < 0 {
        0
    } else if x > 255 {
        255
    } else {
        x as u8
    }
}

/// Integers quantize with step 1 around zero point 128, so values from -128 to 127 are kept.
impl Activation for i32 {
    open spec fn spec_from_i32(x: i32) -> i32 {
        x
    }

    open spec fn spec_lesser(self, other: i32) -> i32 {
        if other < self {
            other
        } else {
            self
        }
    }

    open spec fn spec_greater(self, other: i32) -> i32 {
        if other > self {
            other
        } else {
            self
        }
    }

    open spec fn spec_scale(lo: i32, hi: i32) -> i32 {
        1
    }

    open spec fn spec_zero_point(lo: i32, hi: i32) -> i32 {
        128
    }

    open spec fn spec_quantize(self, scale: i32, zero_point: i32) -> u8 {
        clamp_byte(self + zero_point)
    }

    fn from_i32(x: i32) -> i32 {
        x
    }

    fn lesser(self, other: i32) -> i32 {
        if other < self {
            other
        } else {
            self
        }
    }

    fn greater(self, other: i32) -> i32 {
        if other > self {
            other
        } else {
            self
        }
    }

    fn scale(lo: i32, hi: i32) -> i32 {
        1
    }

    fn zero_point(lo: i32, hi: i32) -> i32 {
        128
    }

    fn quantize(self, scale: i32, zero_point: i32) -> u8 {
        let x: i64 = self as i64 + zero_point as i64;
        if x < 0 {
            0
        } else if x > 255 {
            255
        } else {
            x as u8
        }
    }
}

} // verus!
