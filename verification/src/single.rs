//! Numbers of single precision.

use crate::double::Double;
use crate::float::{self, Format};
use vstd::prelude::*;

verus! {

/// A number of single precision, by its bits.
#[derive(Debug, Clone, Copy, PartialEq, Eq, Structural)]
pub struct Single {
    pub bits: u32,
}

impl Single {
    /// The number with these bits.
    pub open spec fn of(bits: int) -> Self {
        Single { bits: bits as u32 }
    }

    /// The number zero.
    pub open spec fn zero() -> Self {
        Single { bits: 0 }
    }

    /// The number one.
    pub open spec fn one() -> Self {
        Single { bits: 0x3f80_0000 }
    }

    /// The pattern of the number.
    pub open spec fn pattern(self) -> int {
        self.bits as int
    }

    /// Whether it is no number.
    pub open spec fn is_nan(self) -> bool {
        float::is_nan(Format::Single, self.pattern())
    }

    /// Its place among all numbers.
    pub open spec fn place(self) -> int {
        float::place(Format::Single, self.pattern())
    }

    /// Whether it is below another number.
    pub open spec fn is_less(self, other: Self) -> bool {
        float::is_less(Format::Single, self.pattern(), other.pattern())
    }

    /// Whether it is not above another number.
    pub open spec fn is_at_most(self, other: Self) -> bool {
        float::is_at_most(Format::Single, self.pattern(), other.pattern())
    }

    pub open spec fn added(self, other: Self) -> Self {
        Self::of(float::added(Format::Single, self.pattern(), other.pattern()))
    }

    pub open spec fn subtracted(self, other: Self) -> Self {
        Self::of(float::subtracted(Format::Single, self.pattern(), other.pattern()))
    }

    pub open spec fn multiplied(self, other: Self) -> Self {
        Self::of(float::multiplied(Format::Single, self.pattern(), other.pattern()))
    }

    pub open spec fn divided(self, other: Self) -> Self {
        Self::of(float::divided(Format::Single, self.pattern(), other.pattern()))
    }

    pub open spec fn larger(self, other: Self) -> Self {
        Self::of(float::larger(Format::Single, self.pattern(), other.pattern()))
    }

    /// The number nearest to a count.
    pub open spec fn counted(n: nat) -> Self {
        Self::of(float::counted(Format::Single, n))
    }

    /// Whether it is below another number.
    pub fn test_less(self, other: Self) -> (less: bool)
        ensures
            less == self.is_less(other),
    {
        float::test_less(Format::Single, self.bits as u64, other.bits as u64)
    }

    /// Whether it is not above another number.
    pub fn test_at_most(self, other: Self) -> (at_most: bool)
        ensures
            at_most == self.is_at_most(other),
    {
        float::test_at_most(Format::Single, self.bits as u64, other.bits as u64)
    }

    /// The sum with another number.
    pub fn plus(self, other: Self) -> (sum: Self)
        ensures
            sum == self.added(other),
            sum.pattern() == float::added(Format::Single, self.pattern(), other.pattern()),
    {
        Single { bits: float::plus(Format::Single, self.bits as u64, other.bits as u64) as u32 }
    }

    /// The difference to another number.
    pub fn minus(self, other: Self) -> (difference: Self)
        ensures
            difference == self.subtracted(other),
            difference.pattern() == float::subtracted(
                Format::Single,
                self.pattern(),
                other.pattern(),
            ),
    {
        Single { bits: float::minus(Format::Single, self.bits as u64, other.bits as u64) as u32 }
    }

    /// The product with another number.
    pub fn times(self, other: Self) -> (product: Self)
        ensures
            product == self.multiplied(other),
            product.pattern() == float::multiplied(Format::Single, self.pattern(), other.pattern()),
    {
        Single { bits: float::times(Format::Single, self.bits as u64, other.bits as u64) as u32 }
    }

    /// The quotient by another number.
    pub fn over(self, other: Self) -> (quotient: Self)
        ensures
            quotient == self.divided(other),
            quotient.pattern() == float::divided(Format::Single, self.pattern(), other.pattern()),
    {
        Single { bits: float::over(Format::Single, self.bits as u64, other.bits as u64) as u32 }
    }

    /// The larger of two numbers.
    pub fn maximum(self, other: Self) -> (result: Self)
        ensures
            result == self.larger(other),
    {
        Single { bits: float::maximum(Format::Single, self.bits as u64, other.bits as u64) as u32 }
    }

    /// The number nearest to a count.
    pub fn count(n: u64) -> (result: Self)
        ensures
            result == Self::counted(n as nat),
            result.pattern() == float::counted(Format::Single, n as nat),
            !result.is_nan(),
            result.place() >= 0,
    {
        Single { bits: float::count(Format::Single, n) as u32 }
    }

    /// The same number in double precision.
    pub open spec fn widened(self) -> Double {
        Double::of(float::widened(self.pattern()))
    }

    /// The same number in double precision.
    pub fn widen(self) -> (result: Double)
        ensures
            result == self.widened(),
    {
        Double { bits: float::widen(self.bits) }
    }
}

} // verus!
