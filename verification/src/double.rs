//! Numbers of double precision.

use crate::big::Big;
use crate::float::{self, Format};
use crate::single::Single;
use crate::text::{self, push_tenths};
use vstd::arithmetic::power2;
use vstd::prelude::*;

verus! {

/// A number of double precision, by its bits.
#[derive(Debug, Clone, Copy, PartialEq, Eq, Structural)]
pub struct Double {
    pub bits: u64,
}

impl Double {
    /// The number with these bits.
    pub open spec fn of(bits: int) -> Self {
        Double { bits: bits as u64 }
    }

    /// The number zero.
    pub open spec fn zero() -> Self {
        Double { bits: 0 }
    }

    /// The pattern of the number.
    pub open spec fn pattern(self) -> int {
        self.bits as int
    }

    /// Whether it is no number.
    pub open spec fn is_nan(self) -> bool {
        float::is_nan(Format::Double, self.pattern())
    }

    /// Whether it is a number, and not an infinite one.
    pub open spec fn is_finite(self) -> bool {
        float::is_finite(Format::Double, self.pattern())
    }

    /// Its place among all numbers.
    pub open spec fn place(self) -> int {
        float::place(Format::Double, self.pattern())
    }

    /// Whether it is below another number.
    pub open spec fn is_less(self, other: Self) -> bool {
        float::is_less(Format::Double, self.pattern(), other.pattern())
    }

    /// Whether it is not above another number.
    pub open spec fn is_at_most(self, other: Self) -> bool {
        float::is_at_most(Format::Double, self.pattern(), other.pattern())
    }

    pub open spec fn added(self, other: Self) -> Self {
        Self::of(float::added(Format::Double, self.pattern(), other.pattern()))
    }

    pub open spec fn subtracted(self, other: Self) -> Self {
        Self::of(float::subtracted(Format::Double, self.pattern(), other.pattern()))
    }

    pub open spec fn multiplied(self, other: Self) -> Self {
        Self::of(float::multiplied(Format::Double, self.pattern(), other.pattern()))
    }

    pub open spec fn divided(self, other: Self) -> Self {
        Self::of(float::divided(Format::Double, self.pattern(), other.pattern()))
    }

    pub open spec fn larger(self, other: Self) -> Self {
        Self::of(float::larger(Format::Double, self.pattern(), other.pattern()))
    }

    pub open spec fn smaller(self, other: Self) -> Self {
        Self::of(float::smaller(Format::Double, self.pattern(), other.pattern()))
    }

    /// The number without its sign.
    pub open spec fn unsigned(self) -> Self {
        Self::of(float::magnitude(Format::Double, self.pattern()) as int)
    }

    /// The number nearest to a count.
    pub open spec fn counted(n: nat) -> Self {
        Self::of(float::counted(Format::Double, n))
    }

    /// The number nearest to an integer.
    pub open spec fn integral(n: int) -> Self {
        if n < 0 {
            Self::of(float::negated(Format::Double, float::counted(Format::Double, (-n) as nat)))
        } else {
            Self::counted(n as nat)
        }
    }

    /// Its whole part.
    pub open spec fn whole(self) -> int {
        float::whole(Format::Double, self.pattern())
    }

    /// The nearest number of single precision.
    pub open spec fn narrowed(self) -> Single {
        Single { bits: float::narrowed(self.pattern()) as u32 }
    }

    /// The number without its sign.
    pub fn magnitude(self) -> (result: Self)
        ensures
            result == self.unsigned(),
    {
        Double { bits: float::without_sign(Format::Double, self.bits) }
    }

    /// Whether it is no number.
    pub fn test_nan(self) -> (nan: bool)
        ensures
            nan == self.is_nan(),
    {
        float::test_nan(Format::Double, self.bits)
    }

    /// Whether it is a number, and not an infinite one.
    pub fn test_finite(self) -> (finite: bool)
        ensures
            finite == self.is_finite(),
    {
        float::test_finite(Format::Double, self.bits)
    }

    /// Whether it is below another number.
    pub fn test_less(self, other: Self) -> (less: bool)
        ensures
            less == self.is_less(other),
    {
        float::test_less(Format::Double, self.bits, other.bits)
    }

    /// Whether it is not above another number.
    pub fn test_at_most(self, other: Self) -> (at_most: bool)
        ensures
            at_most == self.is_at_most(other),
    {
        float::test_at_most(Format::Double, self.bits, other.bits)
    }

    /// The sum with another number.
    pub fn plus(self, other: Self) -> (sum: Self)
        ensures
            sum == self.added(other),
            sum.pattern() == float::added(Format::Double, self.pattern(), other.pattern()),
    {
        Double { bits: float::plus(Format::Double, self.bits, other.bits) }
    }

    /// The difference to another number.
    pub fn minus(self, other: Self) -> (difference: Self)
        ensures
            difference == self.subtracted(other),
            difference.pattern() == float::subtracted(
                Format::Double,
                self.pattern(),
                other.pattern(),
            ),
    {
        Double { bits: float::minus(Format::Double, self.bits, other.bits) }
    }

    /// The product with another number.
    pub fn times(self, other: Self) -> (product: Self)
        ensures
            product == self.multiplied(other),
            product.pattern() == float::multiplied(Format::Double, self.pattern(), other.pattern()),
    {
        Double { bits: float::times(Format::Double, self.bits, other.bits) }
    }

    /// The quotient by another number.
    pub fn over(self, other: Self) -> (quotient: Self)
        ensures
            quotient == self.divided(other),
            quotient.pattern() == float::divided(Format::Double, self.pattern(), other.pattern()),
    {
        Double { bits: float::over(Format::Double, self.bits, other.bits) }
    }

    /// The larger of two numbers.
    pub fn maximum(self, other: Self) -> (result: Self)
        ensures
            result == self.larger(other),
    {
        Double { bits: float::maximum(Format::Double, self.bits, other.bits) }
    }

    /// The smaller of two numbers.
    pub fn minimum(self, other: Self) -> (result: Self)
        ensures
            result == self.smaller(other),
    {
        Double { bits: float::minimum(Format::Double, self.bits, other.bits) }
    }

    /// The number nearest to a count.
    pub fn count(n: u64) -> (result: Self)
        ensures
            result == Self::counted(n as nat),
            result.pattern() == float::counted(Format::Double, n as nat),
            !result.is_nan(),
            result.place() >= 0,
    {
        Double { bits: float::count(Format::Double, n) }
    }

    /// The number nearest to an integer.
    pub fn integer(n: i32) -> (result: Self)
        ensures
            result == Self::integral(n as int),
    {
        if n < 0 {
            let magnitude: u64 = (-(n as i64)) as u64;
            let positive = Self::count(magnitude);
            Double { bits: float::negative_of(Format::Double, positive.bits) }
        } else {
            Self::count(n as u64)
        }
    }

    /// Its whole part.
    pub fn truncate(self) -> (n: u64)
        ensures
            n == self.whole(),
    {
        float::truncate(Format::Double, self.bits)
    }

    /// The nearest number of single precision.
    pub fn narrow(self) -> (result: Single)
        ensures
            result == self.narrowed(),
    {
        Single { bits: float::narrow(self.bits) }
    }

    /// Whether it is zero.
    pub fn is_zero(self) -> (zero: bool)
        ensures
            zero == (self.place() == 0),
    {
        self.bits == 0 || self.bits == 0x8000_0000_0000_0000
    }

    /// A thousand millions of a number of seconds, rounded to a whole number.
    pub fn nanos(self) -> (n: u128)
        requires
            self.is_finite(),
            self.place() >= 0,
            self.whole() < u64::MAX,
        ensures
            n == float::scaled(Format::Double, self.pattern(), 1_000_000_000),
    {
        let count = float::scale_up(Format::Double, self.bits, 1_000_000_000);
        proof {
            let units = float::units(
                Format::Double,
                float::magnitude(Format::Double, self.pattern()),
            ) as int;
            let den = power2::pow2(1074) as int;
            power2::lemma_pow2_pos(1074);
            if self.place() == 0 && float::is_negative(Format::Double, self.pattern()) {
                float::lemma_zero_is_nearest(Format::Double, 1);
            } else {
                vstd::arithmetic::div_mod::lemma_fundamental_div_mod(units, den);
                vstd::arithmetic::div_mod::lemma_mod_bound(units, den);
            }
            let product = units * 1_000_000_000;
            assert(units < 0xffff_ffff_ffff_ffff * den) by (nonlinear_arith)
                requires
                    units == 0 || (units == den * (units / den) + units % den && units % den < den
                        && units / den < 0xffff_ffff_ffff_ffff),
                    den > 0,
            ;
            assert(product / den < 0xffff_ffff_ffff_ffff * 1_000_000_000) by (nonlinear_arith)
                requires
                    product == units * 1_000_000_000,
                    0 <= units < 0xffff_ffff_ffff_ffff * den,
                    den > 0,
            ;
        }
        count.to_u128()
    }

    /// A number with one decimal place.
    pub open spec fn text(self) -> Seq<char> {
        let sign = if float::is_negative(Format::Double, self.pattern()) {
            seq!['-']
        } else {
            Seq::empty()
        };
        if self.is_nan() {
            "NaN"@
        } else if self.is_finite() {
            sign + text::one_place(
                float::scaled(Format::Double, self.pattern(), 10) as nat,
            )
        } else {
            sign + "inf"@
        }
    }

    /// A number with one decimal place.
    pub fn show(self) -> (shown: String)
        ensures
            shown@ == self.text(),
    {
        if self.test_nan() {
            return String::from_str("NaN");
        }
        let mut shown = String::new();
        if float::sign_test(Format::Double, self.bits) {
            proof {
                reveal_strlit("-");
            }
            shown.append("-");
        }
        let ghost sign = shown@;
        assert(sign =~= if float::is_negative(Format::Double, self.pattern()) {
            seq!['-']
        } else {
            Seq::empty()
        });
        if self.test_finite() {
            push_tenths(&mut shown, &float::scale_up(Format::Double, self.bits, 10));
        } else {
            shown.append("inf");
        }
        shown
    }
}

} // verus!
