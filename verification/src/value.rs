//! Sample values as IEEE 754 binary64 bit patterns.
//!
//! A value is carried as the 64 bits of its binary64 encoding, so that it can
//! be stored, compared and classified with integer arithmetic alone. The top
//! bit is the sign; the remaining 63 bits, read as an integer, grow with the
//! absolute value of the number, which makes sign and magnitude enough to
//! order any two numbers.

use vstd::prelude::*;

verus! {

/// The sign bit of a binary64 pattern.
pub const SIGN_BIT: u64 = 0x8000_0000_0000_0000;

/// The magnitude of positive and negative infinity. Magnitudes below it
/// belong to finite numbers, magnitudes above it to NaNs.
pub const INFINITY_MAGNITUDE: u64 = 0x7ff0_0000_0000_0000;

/// One sensor value, stored as its binary64 bit pattern.
#[derive(Clone, Copy, Debug, PartialEq, Eq, Structural)]
pub struct SampleValue {
    pub bits: u64,
}

impl SampleValue {
    /// Whether the sign bit is set.
    pub open spec fn negative(self) -> bool {
        self.bits >= SIGN_BIT
    }

    /// The pattern without its sign bit.
    pub open spec fn magnitude(self) -> int {
        if self.negative() {
            self.bits - SIGN_BIT
        } else {
            self.bits as int
        }
    }

    /// Neither an infinity nor a NaN.
    pub open spec fn finite(self) -> bool {
        self.magnitude() < INFINITY_MAGNITUDE
    }

    /// Not a number: nothing compares with it.
    pub open spec fn nan(self) -> bool {
        self.magnitude() > INFINITY_MAGNITUDE
    }

    /// The signed magnitude. For two values that are not NaN, the smaller
    /// number has the smaller rank, and both zeros have rank 0.
    pub open spec fn rank(self) -> int {
        if self.negative() {
            -self.magnitude()
        } else {
            self.magnitude()
        }
    }

    /// `lo <= self <= hi` as numbers; false as soon as one of the three is a
    /// NaN.
    pub open spec fn within(self, lo: SampleValue, hi: SampleValue) -> bool {
        !self.nan() && !lo.nan() && !hi.nan() && lo.rank() <= self.rank() <= hi.rank()
    }

    /// Wraps a bit pattern.
    pub fn from_bits(bits: u64) -> (v: SampleValue)
        ensures
            v.bits == bits,
    {
        SampleValue { bits }
    }

    /// The bit pattern.
    pub fn to_bits(self) -> (bits: u64)
        ensures
            bits == self.bits,
    {
        self.bits
    }

    fn magnitude_bits(self) -> (m: u64)
        ensures
            m == self.magnitude(),
            m < SIGN_BIT,
    {
        if self.bits >= SIGN_BIT {
            self.bits - SIGN_BIT
        } else {
            self.bits
        }
    }

    fn signed_rank(self) -> (r: i64)
        ensures
            r == self.rank(),
    {
        let m: u64 = self.magnitude_bits();
        if self.bits >= SIGN_BIT {
            -(m as i64)
        } else {
            m as i64
        }
    }

    /// Tells finite numbers from infinities and NaNs.
    pub fn is_finite(self) -> (b: bool)
        ensures
            b == self.finite(),
    {
        self.magnitude_bits() < INFINITY_MAGNITUDE
    }

    /// Tells NaNs from numbers.
    pub fn is_nan(self) -> (b: bool)
        ensures
            b == self.nan(),
    {
        self.magnitude_bits() > INFINITY_MAGNITUDE
    }

    /// Whether the value lies in the closed interval from `lo` to `hi`.
    pub fn is_within(self, lo: SampleValue, hi: SampleValue) -> (b: bool)
        ensures
            b == self.within(lo, hi),
    {
        if self.is_nan() || lo.is_nan() || hi.is_nan() {
            false
        } else {
            let r: i64 = self.signed_rank();
            lo.signed_rank() <= r && r <= hi.signed_rank()
        }
    }
}

} // verus!
