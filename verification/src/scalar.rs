//! Real-valued quantities, carried but never computed with.

use vstd::prelude::*;

verus! {

/// A real-valued quantity (a coordinate, an angle, a speed), held as the bit
/// pattern of an IEEE-754 binary64 number.
///
/// The compiler moves these values from waypoints, constraints and the robot
/// configuration into directives without ever inspecting them; arithmetic on
/// them is left to the caller.  Two quantities are equal when their patterns
/// are.
#[derive(Clone, Copy, Debug, PartialEq, Eq, Structural)]
pub struct Scalar {
    pub bits: u64,
}

impl Scalar {
    /// The quantity whose binary64 pattern is `bits`.
    pub fn from_bits(bits: u64) -> (s: Scalar)
        ensures
            s.bits == bits,
    {
        Scalar { bits }
    }

    /// The binary64 pattern of this quantity.
    pub fn to_bits(self) -> (bits: u64)
        ensures
            bits == self.bits,
    {
        self.bits
    }

    /// Positive zero, whose pattern has every bit clear.
    pub open spec fn spec_zero() -> Scalar {
        Scalar { bits: 0 }
    }

    /// Positive zero.
    #[verifier::when_used_as_spec(spec_zero)]
    pub fn zero() -> (s: Scalar)
        ensures
            s == Scalar::spec_zero(),
    {
        Scalar { bits: 0 }
    }
}

} // verus!
