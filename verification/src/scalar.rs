//! Double-precision numbers, held by bit pattern, and the values they stand for.

use vstd::prelude::*;
use vstd::arithmetic::power2::pow2;

verus! {

/// The sign bit of a double.
pub const SIGN_BIT: u64 = 0x8000_0000_0000_0000;

/// The bit pattern of positive infinity. Without its sign bit, a pattern below
/// this one is a finite number, and a pattern above it is not a number.
pub const INFINITY_BITS: u64 = 0x7ff0_0000_0000_0000;

/// The lowest bit of the exponent field, 2^52: the implicit leading bit of a
/// normal number's significand.
pub const HIDDEN_BIT: u64 = 0x0010_0000_0000_0000;

/// The biased exponent in the bit pattern `m` of a non-negative double.
pub open spec fn exponent_of(m: nat) -> nat {
    m / (HIDDEN_BIT as nat)
}

/// The significand of the non-negative double with bit pattern `m`: the
/// fraction field, with the implicit leading bit unless the number is subnormal.
pub open spec fn significand_of(m: nat) -> nat {
    if exponent_of(m) == 0 {
        m
    } else {
        (HIDDEN_BIT as nat) + m % (HIDDEN_BIT as nat)
    }
}

/// The power of two by which the significand of `m` is scaled, counted from
/// the smallest exponent: subnormal numbers and the smallest normal ones have 0.
pub open spec fn shift_of(m: nat) -> nat {
    if exponent_of(m) == 0 {
        0
    } else {
        (exponent_of(m) - 1) as nat
    }
}

/// The value of the non-negative double with bit pattern `m`, counted in units
/// of 2^-1074, the smallest positive double. Every finite double is a whole
/// number of units. Infinity counts as 2^2098 units, above every finite double.
pub open spec fn units_of(m: nat) -> nat {
    significand_of(m) * pow2(shift_of(m))
}

/// An IEEE 754 double-precision number, held by its bit pattern.
#[derive(Clone, Copy, Debug)]
pub struct Scalar {
    pub bits: u64,
}

impl Scalar {
    /// Whether the sign bit is set.
    pub open spec fn negative(self) -> bool {
        self.bits >= SIGN_BIT
    }

    /// The bit pattern without its sign bit.
    pub open spec fn magnitude(self) -> nat {
        if self.bits >= SIGN_BIT {
            (self.bits - SIGN_BIT) as nat
        } else {
            self.bits as nat
        }
    }

    /// Whether this is not a number.
    pub open spec fn nan(self) -> bool {
        self.magnitude() > INFINITY_BITS
    }

    /// Whether this is a number other than the two infinities.
    pub open spec fn finite(self) -> bool {
        self.magnitude() < INFINITY_BITS
    }

    /// The value in units of 2^-1074, for a number. The two zeros have the
    /// value 0; the infinities have plus and minus 2^2098.
    pub open spec fn units(self) -> int {
        if self.negative() {
            -(units_of(self.magnitude()) as int)
        } else {
            units_of(self.magnitude()) as int
        }
    }

    /// The double with the given bit pattern.
    pub fn from_bits(bits: u64) -> (r: Scalar)
        ensures
            r.bits == bits,
    {
        Scalar { bits }
    }

    /// The bit pattern of the double.
    pub fn to_bits(self) -> (r: u64)
        ensures
            r == self.bits,
    {
        self.bits
    }

    /// Whether the sign bit is set.
    pub fn is_negative(self) -> (r: bool)
        ensures
            r == self.negative(),
    {
        self.bits >= SIGN_BIT
    }

    /// The double with the sign bit cleared.
    pub fn abs(self) -> (r: Scalar)
        ensures
            r.bits == self.magnitude(),
    {
        if self.bits >= SIGN_BIT {
            Scalar { bits: self.bits - SIGN_BIT }
        } else {
            self
        }
    }

    /// Whether this is not a number.
    pub fn is_nan(self) -> (r: bool)
        ensures
            r == self.nan(),
    {
        self.abs().bits > INFINITY_BITS
    }
}

} // verus!
