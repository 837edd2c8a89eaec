//! Floating-point values by their bit patterns.

use vstd::prelude::*;

verus! {

/// A single-precision value, by its IEEE 754 bit pattern.
#[derive(Clone, Copy, Debug, PartialEq, Eq, Structural)]
pub struct Single {
    pub bits: u32,
}

impl Single {
    /// The value is neither infinite nor a NaN: its exponent field is not all ones.
    pub open spec fn finite(self) -> bool {
        self.bits as int / 0x80_0000 % 0x100 != 0xff
    }

    /// The value is finite and above zero: the sign bit is clear and the value is not zero.
    pub open spec fn positive(self) -> bool {
        self.finite() && 0 < self.bits < 0x8000_0000
    }

    /// The value is above zero, infinity counted in.
    pub open spec fn above_zero(self) -> bool {
        0 < self.bits <= 0x7f80_0000
    }

    /// The value is zero or below, with either sign of zero and infinity counted in.
    pub open spec fn at_most_zero(self) -> bool {
        self.bits == 0 || 0x8000_0000 <= self.bits <= 0xff80_0000
    }

    /// The value's place in the total order of all values, by which also zeros of both signs and
    /// NaNs are told apart: a clear sign bit counts up from zero, a set one counts down.
    pub open spec fn order(self) -> int {
        if self.bits < 0x8000_0000 {
            self.bits as int
        } else {
            -1 - (self.bits - 0x8000_0000)
        }
    }

    /// Decides whether the value is above zero.
    pub fn is_above_zero(self) -> (r: bool)
        ensures
            r == self.above_zero(),
    {
        0 < self.bits && self.bits <= 0x7f80_0000
    }

    /// Decides whether the value is zero or below.
    pub fn is_at_most_zero(self) -> (r: bool)
        ensures
            r == self.at_most_zero(),
    {
        self.bits == 0 || (0x8000_0000 <= self.bits && self.bits <= 0xff80_0000)
    }

    /// Decides whether the value is finite.
    pub fn is_finite(self) -> (r: bool)
        ensures
            r == self.finite(),
    {
        let magnitude: u32 = self.bits % 0x8000_0000;
        magnitude < 0x7f80_0000
    }

    /// The value's place in the total order.
    pub fn order_key(self) -> (key: i32)
        ensures
            key == self.order(),
    {
        if self.bits < 0x8000_0000 {
            self.bits as i32
        } else {
            -1 - (self.bits - 0x8000_0000) as i32
        }
    }

    /// Decides whether the value is finite and above zero.
    pub fn is_positive_finite(self) -> (r: bool)
        ensures
            r == self.positive(),
    {
        0 < self.bits && self.bits < 0x7f80_0000
    }
}

/// The order of the values is total: two values in one place are the same value.
pub proof fn order_tells_values_apart(a: Single, b: Single)
    ensures
        a.order() == b.order() ==> a == b,
        a.positive() && b.positive() ==> (a.order() < b.order() <==> a.bits < b.bits),
        a.at_most_zero() && b.above_zero() ==> a.order() < b.order(),
{
}

/// The order of the values by their bit patterns: those with a clear sign bit ascend with the
/// pattern, those with a set one descend and lie below all the others.
pub proof fn order_ascends_with_the_values(a: Single, b: Single)
    ensures
        a.bits < 0x8000_0000 && b.bits < 0x8000_0000 ==> (a.order() < b.order() <==> a.bits
            < b.bits),
        a.bits >= 0x8000_0000 && b.bits >= 0x8000_0000 ==> (a.order() < b.order() <==> a.bits
            > b.bits),
        a.bits >= 0x8000_0000 && b.bits < 0x8000_0000 ==> a.order() < b.order(),
{
}

/// Which bit patterns are finite, positive, above zero, and zero or below: the patterns from
/// `0x7f80_0000` on up to the sign bit are infinity and the NaNs.
pub proof fn bit_patterns_fall_into_classes(a: Single, b: Double)
    ensures
        a.finite() <==> a.bits < 0x7f80_0000 || 0x8000_0000 <= a.bits < 0xff80_0000,
        a.positive() <==> 0 < a.bits < 0x7f80_0000,
        a.above_zero() <==> a.positive() || a.bits == 0x7f80_0000,
        a.at_most_zero() <==> a.bits == 0 || (0x8000_0000 <= a.bits && a.finite()) || a.bits
            == 0xff80_0000,
        a.finite() ==> (a.above_zero() <==> !a.at_most_zero()),
        b.above_zero() <==> b.bits != 0 && b.bits < 0x7ff0_0000_0000_0001,
{
}

/// A double-precision value, by its IEEE 754 bit pattern.
#[derive(Clone, Copy, Debug, PartialEq, Eq, Structural)]
pub struct Double {
    pub bits: u64,
}

impl Double {
    /// The value is above zero, infinity counted in: the sign bit is clear, and the value is neither
    /// zero nor a NaN.
    pub open spec fn above_zero(self) -> bool {
        0 < self.bits <= 0x7ff0_0000_0000_0000
    }

    /// Decides whether the value is above zero.
    pub fn is_above_zero(self) -> (r: bool)
        ensures
            r == self.above_zero(),
    {
        0 < self.bits && self.bits <= 0x7ff0_0000_0000_0000
    }
}

} // verus!
