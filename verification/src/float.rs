//! Binary floating-point numbers of single and double precision, by their bits.
//!
//! A finite number is a count of the smallest positive one, which is its unit. The patterns of
//! positive numbers are in the order of the numbers, so that a number is rounded by finding the
//! pattern whose neighbours are farther away.

use crate::big::Big;
use crate::bounds;
use crate::text;
use vstd::arithmetic::power2;
use vstd::prelude::*;

verus! {

/// A precision.
#[derive(Debug, Clone, Copy, PartialEq, Eq, Structural)]
pub enum Format {
    /// 24 significant bits.
    Single,
    /// 53 significant bits.
    Double,
}

impl Format {
    /// The patterns of each exponent.
    pub open spec fn span(self) -> nat {
        match self {
            Format::Single => 0x80_0000,
            Format::Double => 0x10_0000_0000_0000,
        }
    }

    /// The pattern of infinity.
    pub open spec fn top(self) -> nat {
        match self {
            Format::Single => 0x7f80_0000,
            Format::Double => 0x7ff0_0000_0000_0000,
        }
    }

    /// The bit of negative numbers.
    pub open spec fn sign(self) -> nat {
        match self {
            Format::Single => 0x8000_0000,
            Format::Double => 0x8000_0000_0000_0000,
        }
    }

    /// The number one has 2 to this power of units.
    pub open spec fn scale(self) -> nat {
        match self {
            Format::Single => 149,
            Format::Double => 1074,
        }
    }

    /// The pattern of what is not a number.
    pub open spec fn nan(self) -> nat {
        match self {
            Format::Single => 0x7fc0_0000,
            Format::Double => 0x7ff8_0000_0000_0000,
        }
    }

    fn span_of(self) -> (n: u64)
        ensures
            n == self.span(),
    {
        match self {
            Format::Single => 0x80_0000,
            Format::Double => 0x10_0000_0000_0000,
        }
    }

    fn top_of(self) -> (n: u64)
        ensures
            n == self.top(),
    {
        match self {
            Format::Single => 0x7f80_0000,
            Format::Double => 0x7ff0_0000_0000_0000,
        }
    }

    fn sign_of(self) -> (n: u64)
        ensures
            n == self.sign(),
    {
        match self {
            Format::Single => 0x8000_0000,
            Format::Double => 0x8000_0000_0000_0000,
        }
    }

    fn scale_of(self) -> (n: u64)
        ensures
            n == self.scale(),
    {
        match self {
            Format::Single => 149,
            Format::Double => 1074,
        }
    }

    fn nan_of(self) -> (n: u64)
        ensures
            n == self.nan(),
    {
        match self {
            Format::Single => 0x7fc0_0000,
            Format::Double => 0x7ff8_0000_0000_0000,
        }
    }

    /// Whether a pattern is one of this precision.
    pub open spec fn has(self, x: int) -> bool {
        0 <= x < 2 * self.sign()
    }
}

// ---- Patterns of positive numbers ----

/// The power of two by which the significant bits of a pattern are multiplied.
pub open spec fn power(f: Format, p: nat) -> nat {
    if p < f.span() {
        0
    } else {
        (p / f.span() - 1) as nat
    }
}

/// The significant bits of a pattern.
pub open spec fn significant(f: Format, p: nat) -> nat {
    if p < f.span() {
        p
    } else {
        f.span() + p % f.span()
    }
}

/// The units of a pattern. Infinity counts as the next number after the largest finite one.
pub open spec fn units(f: Format, p: nat) -> nat {
    significant(f, p) * power2::pow2(power(f, p))
}

/// The units of a pattern and those of the next one, together: twice what is in the middle.
pub open spec fn middle(f: Format, p: nat) -> nat {
    (2 * significant(f, p) + 1) * power2::pow2(power(f, p))
}

/// Whether a quotient of units is rounded to a pattern above this one: it is beyond the middle, or
/// in the middle while the pattern is odd.
pub open spec fn is_above(f: Format, p: nat, num: nat, den: nat) -> bool {
    ||| 2 * num > middle(f, p) * den
    ||| 2 * num == middle(f, p) * den && p % 2 == 1
}

/// Whether a pattern is the nearest one to a quotient of units, the even one of two.
pub open spec fn is_nearest(f: Format, p: nat, num: nat, den: nat) -> bool {
    &&& p <= f.top()
    &&& p == 0 || is_above(f, (p - 1) as nat, num, den)
    &&& p == f.top() || !is_above(f, p, num, den)
}

/// The pattern nearest to a quotient of units.
pub open spec fn nearest(f: Format, num: nat, den: nat) -> nat {
    choose|p: nat| #[trigger] is_nearest(f, p, num, den)
}

/// The next pattern has one more of the smallest significant bit.
pub proof fn lemma_next(f: Format, p: nat)
    ensures
        units(f, p + 1) == units(f, p) + power2::pow2(power(f, p)),
        middle(f, p) == units(f, p) + units(f, p + 1),
        power2::pow2(power(f, p)) > 0,
{
    let m = significant(f, p);
    let unit = power2::pow2(power(f, p));
    power2::lemma_pow2_pos(power(f, p));
    assert((m + 1) * unit == m * unit + unit) by (nonlinear_arith);
    assert((2 * m + 1) * unit == m * unit + (m * unit + unit)) by (nonlinear_arith);
    match f {
        Format::Single => {
            if p >= 0x80_0000 && p % 0x80_0000 == 0x7f_ffff {
                assert(significant(f, p + 1) == 0x80_0000);
                assert(power(f, p + 1) == power(f, p) + 1);
                power2::lemma_pow2_unfold(power(f, p + 1));
                assert(0x80_0000 * (2 * unit) == (0xff_ffff + 1) * unit) by (nonlinear_arith);
            } else {
                assert(significant(f, p + 1) == m + 1);
                assert(power(f, p + 1) == power(f, p));
            }
        },
        Format::Double => {
            if p >= 0x10_0000_0000_0000 && p % 0x10_0000_0000_0000 == 0xf_ffff_ffff_ffff {
                assert(significant(f, p + 1) == 0x10_0000_0000_0000);
                assert(power(f, p + 1) == power(f, p) + 1);
                power2::lemma_pow2_unfold(power(f, p + 1));
                assert(0x10_0000_0000_0000 * (2 * unit) == (0x1f_ffff_ffff_ffff + 1) * unit)
                    by (nonlinear_arith);
            } else {
                assert(significant(f, p + 1) == m + 1);
                assert(power(f, p + 1) == power(f, p));
            }
        },
    }
}

/// Patterns are in the order of their numbers.
pub proof fn lemma_units_increase(f: Format, p: nat, q: nat)
    requires
        p < q,
    ensures
        units(f, p) < units(f, q),
        middle(f, p) < middle(f, q),
    decreases q - p,
{
    lemma_next(f, (q - 1) as nat);
    lemma_next(f, q);
    if p < q - 1 {
        lemma_units_increase(f, p, (q - 1) as nat);
    }
}

/// What is not smaller is not rounded to a smaller pattern.
pub proof fn lemma_rounding_is_monotone(
    f: Format,
    p: nat,
    num: nat,
    den: nat,
    q: nat,
    other_num: nat,
    other_den: nat,
)
    requires
        is_nearest(f, p, num, den),
        is_nearest(f, q, other_num, other_den),
        den > 0,
        other_den > 0,
        num * other_den <= other_num * den,
    ensures
        p <= q,
{
    if p > q {
        let a = middle(f, (p - 1) as nat);
        let b = middle(f, q);
        if q < p - 1 {
            lemma_units_increase(f, q, (p - 1) as nat);
        }
        assert(2 * num >= a * den);
        assert(2 * other_num <= b * other_den);
        assert(a <= b && (a == b ==> 2 * num == a * den && 2 * other_num == b * other_den))
            by (nonlinear_arith)
            requires
                2 * num >= a * den,
                2 * other_num <= b * other_den,
                num * other_den <= other_num * den,
                den > 0,
                other_den > 0,
        ;
    }
}

/// Only one pattern is the nearest one.
pub proof fn lemma_nearest_is_unique(f: Format, p: nat, num: nat, den: nat)
    requires
        den > 0,
        is_nearest(f, p, num, den),
    ensures
        nearest(f, num, den) == p,
{
    let q = nearest(f, num, den);
    assert(is_nearest(f, q, num, den));
    lemma_rounding_is_monotone(f, p, num, den, q, num, den);
    lemma_rounding_is_monotone(f, q, num, den, p, num, den);
}

/// The units of a pattern are rounded to that pattern.
pub proof fn lemma_exact(f: Format, p: nat, num: nat, den: nat)
    requires
        p <= f.top(),
        den > 0,
        num == units(f, p) * den,
    ensures
        is_nearest(f, p, num, den),
        nearest(f, num, den) == p,
{
    lemma_next(f, p);
    let u = units(f, p);
    let m = middle(f, p);
    assert(2 * num < m * den) by (nonlinear_arith)
        requires
            num == u * den,
            m > 2 * u,
            den > 0,
    ;
    if p > 0 {
        lemma_next(f, (p - 1) as nat);
        let below = middle(f, (p - 1) as nat);
        assert(2 * num > below * den) by (nonlinear_arith)
            requires
                num == u * den,
                below < 2 * u,
                den > 0,
        ;
    }
    lemma_nearest_is_unique(f, p, num, den);
}

/// There is a nearest pattern.
pub proof fn lemma_nearest_exists(f: Format, num: nat, den: nat)
    requires
        den > 0,
    ensures
        is_nearest(f, nearest(f, num, den), num, den),
        nearest(f, num, den) <= f.top(),
{
    let p = lemma_nearest_from(f, num, den, 0);
    assert(is_nearest(f, p, num, den));
}

proof fn lemma_nearest_from(f: Format, num: nat, den: nat, p: nat) -> (q: nat)
    requires
        den > 0,
        p <= f.top(),
        p == 0 || is_above(f, (p - 1) as nat, num, den),
    ensures
        is_nearest(f, q, num, den),
    decreases f.top() - p,
{
    if p == f.top() || !is_above(f, p, num, den) {
        p
    } else {
        lemma_nearest_from(f, num, den, p + 1)
    }
}

fn power_of(f: Format, p: u64) -> (n: u64)
    ensures
        n == power(f, p as nat),
        f == Format::Double ==> n <= 4096,
        n <= 0x200_0000_0000,
{
    let span: u64 = f.span_of();
    if p < span {
        0
    } else {
        p / span - 1
    }
}

fn significant_of(f: Format, p: u64) -> (n: u64)
    ensures
        n == significant(f, p as nat),
        n < 0x20_0000_0000_0000,
{
    let span: u64 = f.span_of();
    if p < span {
        p
    } else {
        span + p % span
    }
}

/// The units of a pattern.
fn units_of(f: Format, p: u64) -> (n: Big)
    ensures
        n@ == units(f, p as nat),
{
    Big::new(significant_of(f, p)).shifted(power_of(f, p))
}

/// Whether twice a quotient of units is beyond the middle after a pattern.
fn goes_above(f: Format, p: u64, twice: &Big, den: &Big) -> (above: bool)
    requires
        twice@ % 2 == 0,
        p < f.top(),
    ensures
        above == is_above(f, p as nat, twice@ / 2, den@),
{
    let m: u64 = 2 * significant_of(f, p) + 1;
    let k: u64 = power_of(f, p);
    let bound = den.times_plus(m, 0).shifted(k);
    proof {
        let unit = power2::pow2(k as nat);
        assert((den@ * m) * unit == (m * unit) * den@) by (nonlinear_arith);
    }
    if bound.is_below(twice) {
        true
    } else if twice.is_below(&bound) {
        false
    } else {
        p % 2 == 1
    }
}

/// The pattern nearest to a quotient of units.
pub fn nearest_pattern(f: Format, num: &Big, den: &Big) -> (p: u64)
    requires
        den@ > 0,
    ensures
        p == nearest(f, num@, den@),
        is_nearest(f, p as nat, num@, den@),
        p <= f.top(),
{
    let twice = num.times_plus(2, 0);
    let mut low: u64 = 0;
    let mut high: u64 = f.top_of();
    while low < high
        invariant
            low <= high <= f.top(),
            twice@ == 2 * num@,
            low == 0 || is_above(f, (low - 1) as nat, num@, den@),
            high == f.top() || !is_above(f, high as nat, num@, den@),
        decreases high - low,
    {
        let p: u64 = low + (high - low) / 2;
        if goes_above(f, p, &twice, den) {
            low = p + 1;
        } else {
            high = p;
        }
    }
    proof {
        lemma_nearest_is_unique(f, low as nat, num@, den@);
    }
    low
}

// ---- Numbers ----

/// Whether a number has the sign of negative ones.
pub open spec fn is_negative(f: Format, x: int) -> bool {
    x >= f.sign()
}

/// A number without its sign.
pub open spec fn magnitude(f: Format, x: int) -> nat {
    if is_negative(f, x) {
        (x - f.sign()) as nat
    } else {
        x as nat
    }
}

/// Whether a pattern is that of no number.
pub open spec fn is_nan(f: Format, x: int) -> bool {
    magnitude(f, x) > f.top()
}

/// Whether a number is infinite.
pub open spec fn is_infinite(f: Format, x: int) -> bool {
    magnitude(f, x) == f.top()
}

/// Whether a number is neither infinite nor none.
pub open spec fn is_finite(f: Format, x: int) -> bool {
    magnitude(f, x) < f.top()
}

/// A magnitude with a sign.
pub open spec fn signed(f: Format, negative: bool, p: nat) -> int {
    if negative {
        (p + f.sign()) as int
    } else {
        p as int
    }
}

/// The units of a number, below zero for a negative one.
pub open spec fn value(f: Format, x: int) -> int {
    if is_negative(f, x) {
        -(units(f, magnitude(f, x)) as int)
    } else {
        units(f, magnitude(f, x)) as int
    }
}

/// The place of a number among all of them. Both zeros have the same one.
pub open spec fn place(f: Format, x: int) -> int {
    if is_negative(f, x) {
        -(magnitude(f, x) as int)
    } else {
        magnitude(f, x) as int
    }
}

/// Whether a number is below another one. Nothing is below or above what is not a number.
pub open spec fn is_less(f: Format, x: int, y: int) -> bool {
    !is_nan(f, x) && !is_nan(f, y) && place(f, x) < place(f, y)
}

/// Whether a number is not above another one.
pub open spec fn is_at_most(f: Format, x: int, y: int) -> bool {
    !is_nan(f, x) && !is_nan(f, y) && place(f, x) <= place(f, y)
}

/// The larger of two numbers, or the one that is a number.
pub open spec fn larger(f: Format, x: int, y: int) -> int {
    if is_nan(f, x) || is_less(f, x, y) {
        y
    } else {
        x
    }
}

/// The smaller of two numbers, or the one that is a number.
pub open spec fn smaller(f: Format, x: int, y: int) -> int {
    if is_nan(f, x) || is_less(f, y, x) {
        y
    } else {
        x
    }
}

/// The number with the other sign.
pub open spec fn negated(f: Format, x: int) -> int {
    signed(f, !is_negative(f, x), magnitude(f, x))
}

/// The sum of two numbers.
pub open spec fn added(f: Format, x: int, y: int) -> int {
    if is_nan(f, x) || is_nan(f, y) {
        f.nan() as int
    } else if is_infinite(f, x) {
        if is_infinite(f, y) && is_negative(f, x) != is_negative(f, y) {
            f.nan() as int
        } else {
            x
        }
    } else if is_infinite(f, y) {
        y
    } else {
        let sum = value(f, x) + value(f, y);
        if sum == 0 {
            signed(f, is_negative(f, x) && is_negative(f, y), 0)
        } else if sum > 0 {
            nearest(f, sum as nat, 1) as int
        } else {
            signed(f, true, nearest(f, (-sum) as nat, 1))
        }
    }
}

/// The difference of two numbers.
pub open spec fn subtracted(f: Format, x: int, y: int) -> int {
    added(f, x, negated(f, y))
}

/// The product of two numbers.
pub open spec fn multiplied(f: Format, x: int, y: int) -> int {
    let negative = is_negative(f, x) != is_negative(f, y);
    let (p, q) = (magnitude(f, x), magnitude(f, y));
    if is_nan(f, x) || is_nan(f, y) {
        f.nan() as int
    } else if is_infinite(f, x) || is_infinite(f, y) {
        if p == 0 || q == 0 {
            f.nan() as int
        } else {
            signed(f, negative, f.top())
        }
    } else {
        signed(
            f,
            negative,
            nearest(f, units(f, p) * units(f, q), power2::pow2(f.scale())),
        )
    }
}

/// The quotient of two numbers.
pub open spec fn divided(f: Format, x: int, y: int) -> int {
    let negative = is_negative(f, x) != is_negative(f, y);
    let (p, q) = (magnitude(f, x), magnitude(f, y));
    if is_nan(f, x) || is_nan(f, y) || is_infinite(f, x) && is_infinite(f, y) || p == 0 && q
        == 0 {
        f.nan() as int
    } else if is_infinite(f, x) || q == 0 {
        signed(f, negative, f.top())
    } else if is_infinite(f, y) {
        signed(f, negative, 0)
    } else {
        signed(
            f,
            negative,
            nearest(f, units(f, p) * power2::pow2(f.scale()), units(f, q)),
        )
    }
}

/// The number nearest to a count.
pub open spec fn counted(f: Format, n: nat) -> int {
    nearest(f, n * power2::pow2(f.scale()), 1) as int
}

/// A double as the nearest number of single precision.
pub open spec fn narrowed(x: int) -> int {
    let negative = is_negative(Format::Double, x);
    let p = magnitude(Format::Double, x);
    if is_nan(Format::Double, x) {
        Format::Single.nan() as int
    } else if is_infinite(Format::Double, x) {
        signed(Format::Single, negative, Format::Single.top())
    } else {
        signed(
            Format::Single,
            negative,
            nearest(
                Format::Single,
                units(Format::Double, p) * power2::pow2(149),
                power2::pow2(1074),
            ),
        )
    }
}

/// The whole part of a number, as near to it as 64 bits go. It is zero of a negative number and of
/// what is none.
pub open spec fn whole(f: Format, x: int) -> int {
    if is_nan(f, x) || is_negative(f, x) {
        0
    } else if is_infinite(f, x) {
        u64::MAX as int
    } else {
        bounds::smaller(
            units(f, magnitude(f, x)) as int / power2::pow2(f.scale()) as int,
            u64::MAX as int,
        )
    }
}

/// Whether a number has the sign of negative ones.
pub fn sign_test(f: Format, x: u64) -> (negative: bool)
    ensures
        negative == is_negative(f, x as int),
{
    x >= f.sign_of()
}

/// A number without its sign.
pub fn without_sign(f: Format, x: u64) -> (p: u64)
    ensures
        p == magnitude(f, x as int),
{
    if x >= f.sign_of() {
        x - f.sign_of()
    } else {
        x
    }
}

fn with_sign(f: Format, negative: bool, p: u64) -> (x: u64)
    requires
        p <= f.top(),
    ensures
        x == signed(f, negative, p as nat),
        f.has(x as int),
{
    if negative {
        p + f.sign_of()
    } else {
        p
    }
}

/// Whether a pattern is that of no number.
pub fn test_nan(f: Format, x: u64) -> (nan: bool)
    ensures
        nan == is_nan(f, x as int),
{
    without_sign(f, x) > f.top_of()
}

/// Whether a number is neither infinite nor none.
pub fn test_finite(f: Format, x: u64) -> (finite: bool)
    ensures
        finite == is_finite(f, x as int),
{
    without_sign(f, x) < f.top_of()
}

/// Whether a number is below another one.
pub fn test_less(f: Format, x: u64, y: u64) -> (less: bool)
    ensures
        less == is_less(f, x as int, y as int),
{
    if test_nan(f, x) || test_nan(f, y) {
        return false;
    }
    let p: u64 = without_sign(f, x);
    let q: u64 = without_sign(f, y);
    match (sign_test(f, x), sign_test(f, y)) {
        (false, false) => p < q,
        (true, true) => q < p,
        (false, true) => false,
        (true, false) => p > 0 || q > 0,
    }
}

/// Whether a number is not above another one.
pub fn test_at_most(f: Format, x: u64, y: u64) -> (at_most: bool)
    ensures
        at_most == is_at_most(f, x as int, y as int),
{
    !test_nan(f, x) && !test_nan(f, y) && !test_less(f, y, x)
}

/// The larger of two numbers, or the one that is a number.
pub fn maximum(f: Format, x: u64, y: u64) -> (z: u64)
    ensures
        z == larger(f, x as int, y as int),
{
    if test_nan(f, x) || test_less(f, x, y) {
        y
    } else {
        x
    }
}

/// The smaller of two numbers, or the one that is a number.
pub fn minimum(f: Format, x: u64, y: u64) -> (z: u64)
    ensures
        z == smaller(f, x as int, y as int),
{
    if test_nan(f, x) || test_less(f, y, x) {
        y
    } else {
        x
    }
}

/// The number with the other sign.
pub fn negative_of(f: Format, x: u64) -> (z: u64)
    requires
        f.has(x as int),
    ensures
        z == negated(f, x as int),
        f.has(z as int),
{
    if sign_test(f, x) {
        x - f.sign_of()
    } else {
        x + f.sign_of()
    }
}

/// The sum of two numbers.
pub fn plus(f: Format, x: u64, y: u64) -> (z: u64)
    requires
        f.has(x as int),
        f.has(y as int),
    ensures
        z == added(f, x as int, y as int),
        f.has(z as int),
{
    if test_nan(f, x) || test_nan(f, y) {
        return f.nan_of();
    }
    let (a, b) = (sign_test(f, x), sign_test(f, y));
    if !test_finite(f, x) {
        return if !test_finite(f, y) && a != b {
            f.nan_of()
        } else {
            x
        };
    }
    if !test_finite(f, y) {
        return y;
    }
    let m = units_of(f, without_sign(f, x));
    let n = units_of(f, without_sign(f, y));
    let (negative, sum) = if a == b {
        (a, m.plus(&n))
    } else if m.is_below(&n) {
        (b, n.minus(&m))
    } else {
        (a, m.minus(&n))
    };
    if sum.is_zero() {
        return with_sign(f, a && b, 0);
    }
    with_sign(f, negative, nearest_pattern(f, &sum, &Big::new(1)))
}

/// The difference of two numbers.
pub fn minus(f: Format, x: u64, y: u64) -> (z: u64)
    requires
        f.has(x as int),
        f.has(y as int),
    ensures
        z == subtracted(f, x as int, y as int),
        f.has(z as int),
{
    plus(f, x, negative_of(f, y))
}

/// A power of two.
fn two_to(k: u64) -> (power: Big)
    ensures
        power@ == power2::pow2(k as nat),
        power@ > 0,
{
    proof {
        power2::lemma_pow2_pos(k as nat);
        assert(1 * power2::pow2(k as nat) == power2::pow2(k as nat)) by (nonlinear_arith);
    }
    Big::new(1).shifted(k)
}

/// The product of two numbers.
pub fn times(f: Format, x: u64, y: u64) -> (z: u64)
    requires
        f.has(x as int),
        f.has(y as int),
    ensures
        z == multiplied(f, x as int, y as int),
        f.has(z as int),
{
    if test_nan(f, x) || test_nan(f, y) {
        return f.nan_of();
    }
    let negative: bool = sign_test(f, x) != sign_test(f, y);
    let p: u64 = without_sign(f, x);
    let q: u64 = without_sign(f, y);
    if !test_finite(f, x) || !test_finite(f, y) {
        return if p == 0 || q == 0 {
            f.nan_of()
        } else {
            with_sign(f, negative, f.top_of())
        };
    }
    let m: u64 = significant_of(f, p);
    let n: u64 = significant_of(f, q);
    let (k, l) = (power_of(f, p), power_of(f, q));
    let product = Big::new(m).times_plus(n, 0).shifted(k + l);
    proof {
        let (a, b) = (power2::pow2(k as nat), power2::pow2(l as nat));
        power2::lemma_pow2_adds(k as nat, l as nat);
        assert((m * n) * (a * b) == (m * a) * (n * b)) by (nonlinear_arith);
    }
    with_sign(f, negative, nearest_pattern(f, &product, &two_to(f.scale_of())))
}

/// The quotient of two numbers.
pub fn over(f: Format, x: u64, y: u64) -> (z: u64)
    requires
        f.has(x as int),
        f.has(y as int),
    ensures
        z == divided(f, x as int, y as int),
        f.has(z as int),
{
    let p: u64 = without_sign(f, x);
    let q: u64 = without_sign(f, y);
    let (bounded, other_bounded) = (test_finite(f, x), test_finite(f, y));
    if test_nan(f, x) || test_nan(f, y) || (!bounded && !other_bounded) || (p == 0 && q == 0) {
        return f.nan_of();
    }
    let negative: bool = sign_test(f, x) != sign_test(f, y);
    if !bounded || q == 0 {
        return with_sign(f, negative, f.top_of());
    }
    if !other_bounded {
        return with_sign(f, negative, 0);
    }
    let num = units_of(f, p).shifted(f.scale_of());
    let den = units_of(f, q);
    proof {
        lemma_units_positive(f, q as nat);
    }
    with_sign(f, negative, nearest_pattern(f, &num, &den))
}

/// Every number but zero has units.
pub proof fn lemma_units_positive(f: Format, p: nat)
    requires
        p > 0,
    ensures
        units(f, p) > 0,
{
    lemma_units_increase(f, 0, p);
}

/// The number nearest to a count.
pub fn count(f: Format, n: u64) -> (x: u64)
    ensures
        x == counted(f, n as nat),
        f.has(x as int),
        !is_negative(f, x as int),
        !is_nan(f, x as int),
{
    nearest_pattern(f, &Big::new(n).shifted(f.scale_of()), &Big::new(1))
}

/// A double as the nearest number of single precision.
pub fn narrow(x: u64) -> (z: u32)
    ensures
        z == narrowed(x as int),
{
    let f = Format::Double;
    let negative: bool = sign_test(f, x);
    if test_nan(f, x) {
        return 0x7fc0_0000;
    }
    if !test_finite(f, x) {
        return if negative {
            0xff80_0000
        } else {
            0x7f80_0000
        };
    }
    let num = units_of(f, without_sign(f, x)).shifted(149);
    let p: u64 = nearest_pattern(Format::Single, &num, &two_to(1074));
    with_sign(Format::Single, negative, p) as u32
}

/// A power of two.
pub(crate) fn power_of_two(exponent: u64) -> (power: u128)
    requires
        exponent <= 100,
    ensures
        power == power2::pow2(exponent as nat),
        0 < power <= 0x10_0000_0000_0000_0000_0000_0000,
{
    let mut power: u128 = 1;
    let mut i: u64 = 0;
    proof {
        power2::lemma2_to64();
        power2::lemma2_to64_rest();
        power2::lemma_pow2_adds(64, 36);
    }
    while i < exponent
        invariant
            i <= exponent <= 100,
            power == power2::pow2(i as nat),
            power2::pow2(100) == 0x10_0000_0000_0000_0000_0000_0000,
        decreases exponent - i,
    {
        i = i + 1;
        proof {
            power2::lemma_pow2_unfold(i as nat);
            if i < 100 {
                power2::lemma_pow2_strictly_increases(i as nat, 100);
            }
        }
        power = 2 * power;
    }
    proof {
        power2::lemma_pow2_pos(i as nat);
        if i < 100 {
            power2::lemma_pow2_strictly_increases(i as nat, 100);
        }
    }
    power
}

/// A quotient of powers of two cancels.
proof fn lemma_cancel(m: nat, power: nat, scale: nat)
    ensures
        power >= scale ==> (m * power2::pow2(power)) as int / power2::pow2(scale) as int == m
            * power2::pow2((power - scale) as nat),
        power < scale ==> (m * power2::pow2(power)) as int / power2::pow2(scale) as int
            == m as int / power2::pow2((scale - power) as nat) as int,
{
    power2::lemma_pow2_pos(power);
    power2::lemma_pow2_pos(scale);
    if power >= scale {
        let rest = power2::pow2((power - scale) as nat);
        let unit = power2::pow2(scale);
        power2::lemma_pow2_adds(scale, (power - scale) as nat);
        assert(m * (unit * rest) == (m * rest) * unit) by (nonlinear_arith);
        vstd::arithmetic::div_mod::lemma_div_by_multiple((m * rest) as int, unit as int);
    } else {
        let rest = power2::pow2((scale - power) as nat);
        let unit = power2::pow2(power);
        power2::lemma_pow2_adds(power, (scale - power) as nat);
        power2::lemma_pow2_pos((scale - power) as nat);
        vstd::arithmetic::div_mod::lemma_div_denominator(
            (m * unit) as int,
            unit as int,
            rest as int,
        );
        vstd::arithmetic::div_mod::lemma_div_by_multiple(m as int, unit as int);
    }
}

/// The whole part of a number.
pub fn truncate(f: Format, x: u64) -> (n: u64)
    ensures
        n == whole(f, x as int),
{
    if test_nan(f, x) || sign_test(f, x) {
        return 0;
    }
    if !test_finite(f, x) {
        return 0xffff_ffff_ffff_ffff;
    }
    let m: u64 = significant_of(f, x);
    let power: u64 = power_of(f, x);
    let scale: u64 = f.scale_of();
    proof {
        lemma_cancel(m as nat, power as nat, scale as nat);
        power2::lemma2_to64();
    }
    if power >= scale {
        let k: u64 = power - scale;
        if k >= 64 {
            proof {
                if k > 64 {
                    power2::lemma_pow2_strictly_increases(64, k as nat);
                }
                let unit = power2::pow2(k as nat);
                assert(m * unit >= 0x1_0000_0000_0000_0000) by (nonlinear_arith)
                    requires
                        m >= 1,
                        unit >= 0x1_0000_0000_0000_0000,
                ;
            }
            return 0xffff_ffff_ffff_ffff;
        }
        let unit: u128 = power_of_two(k);
        proof {
            power2::lemma_pow2_strictly_increases(k as nat, 64);
            assert(0 <= m * unit <= 0x20_0000_0000_0000 * 0x1_0000_0000_0000_0000)
                by (nonlinear_arith)
                requires
                    0 <= m <= 0x20_0000_0000_0000,
                    0 <= unit <= 0x1_0000_0000_0000_0000,
            ;
        }
        let product: u128 = m as u128 * unit;
        if product > 0xffff_ffff_ffff_ffff {
            0xffff_ffff_ffff_ffff
        } else {
            product as u64
        }
    } else {
        let k: u64 = scale - power;
        if k >= 64 {
            proof {
                if k > 64 {
                    power2::lemma_pow2_strictly_increases(64, k as nat);
                }
                vstd::arithmetic::div_mod::lemma_basic_div(m as int, power2::pow2(k as nat) as int);
            }
            return 0;
        }
        let unit: u128 = power_of_two(k);
        proof {
            vstd::arithmetic::div_mod::lemma_div_is_ordered_by_denominator(
                m as int,
                1,
                unit as int,
            );
        }
        (m as u128 / unit) as u64
    }
}

/// The multiple of a number's magnitude, rounded to a whole number.
pub open spec fn scaled(f: Format, x: int, factor: nat) -> int {
    text::round_half_even(
        (units(f, magnitude(f, x)) * factor) as int,
        power2::pow2(f.scale()) as int,
    )
}

/// A multiple of a number's magnitude, rounded to a whole number.
pub fn scale_up(f: Format, x: u64, factor: u32) -> (n: Big)
    requires
        is_finite(f, x as int),
        f.has(x as int),
    ensures
        n@ == scaled(f, x as int, factor as nat),
{
    let p: u64 = without_sign(f, x);
    let m: u64 = significant_of(f, p);
    let power: u64 = power_of(f, p);
    let scale: u64 = f.scale_of();
    assert(0 <= m * factor <= 0x20_0000_0000_0000 * 0x1_0000_0000) by (nonlinear_arith)
        requires
            0 <= m <= 0x20_0000_0000_0000,
            0 <= factor <= 0x1_0000_0000,
    ;
    let product: u128 = m as u128 * factor as u128;
    proof {
        let unit = power2::pow2(power as nat);
        assert((m * unit) * factor == (m * factor) * unit) by (nonlinear_arith);
        power2::lemma2_to64();
        power2::lemma2_to64_rest();
        power2::lemma_pow2_pos(scale as nat);
    }
    if power >= scale {
        let k: u64 = power - scale;
        proof {
            let rest = power2::pow2(k as nat);
            let unit = power2::pow2(scale as nat);
            power2::lemma_pow2_adds(scale as nat, k as nat);
            assert(product * (unit * rest) == (product * rest) * unit) by (nonlinear_arith);
            lemma_rounds_to((product * (unit * rest)) as int, unit as int, (product * rest) as int);
        }
        return Big::new(m).times_plus(factor as u64, 0).shifted(k);
    }
    let k: u64 = scale - power;
    proof {
        let rest = power2::pow2(k as nat);
        let unit = power2::pow2(power as nat);
        power2::lemma_pow2_adds(power as nat, k as nat);
        power2::lemma_pow2_pos(power as nat);
        power2::lemma_pow2_pos(k as nat);
        lemma_rounding_cancels(product as int, rest as int, unit as int);
    }
    if k > 100 {
        proof {
            power2::lemma_pow2_strictly_increases(87, k as nat);
            power2::lemma_pow2_adds(64, 23);
            lemma_rounds_to(product as int, power2::pow2(k as nat) as int, 0);
        }
        return Big::new(0);
    }
    let quotient: u128 = text::rounded(product, power_of_two(k));
    let high: u64 = (quotient / 0x1_0000_0000) as u64;
    proof {
        power2::lemma_pow2_pos(k as nat);
        vstd::arithmetic::div_mod::lemma_div_is_ordered_by_denominator(
            product as int,
            1,
            power2::pow2(k as nat) as int,
        );
    }
    Big::new(high).times_plus(0x1_0000_0000, (quotient % 0x1_0000_0000) as u64)
}

/// A quotient that is less than a half away from a whole number is rounded to it.
pub proof fn lemma_rounds_to(num: int, den: int, n: int)
    requires
        den > 0,
        -den < 2 * (num - n * den) < den,
    ensures
        text::round_half_even(num, den) == n,
{
    let rest = num - n * den;
    if rest >= 0 {
        vstd::arithmetic::div_mod::lemma_fundamental_div_mod_converse(num, den, n, rest);
    } else {
        assert(num == (n - 1) * den + (rest + den)) by (nonlinear_arith)
            requires
                rest == num - n * den,
        ;
        vstd::arithmetic::div_mod::lemma_fundamental_div_mod_converse(num, den, n - 1, rest + den);
    }
}

/// A common factor does not matter to a rounded quotient.
proof fn lemma_rounding_cancels(num: int, den: int, factor: int)
    requires
        den > 0,
        factor > 0,
    ensures
        text::round_half_even(num * factor, factor * den) == text::round_half_even(num, den),
{
    let q = num / den;
    let r = num % den;
    vstd::arithmetic::div_mod::lemma_fundamental_div_mod(num, den);
    vstd::arithmetic::div_mod::lemma_mod_bound(num, den);
    assert(num * factor == q * (factor * den) + r * factor) by (nonlinear_arith)
        requires
            num == den * q + r,
    ;
    assert(0 <= r * factor < factor * den) by (nonlinear_arith)
        requires
            0 <= r < den,
            factor > 0,
    ;
    vstd::arithmetic::div_mod::lemma_fundamental_div_mod_converse(
        num * factor,
        factor * den,
        q,
        r * factor,
    );
    assert((2 * (r * factor) < factor * den <==> 2 * r < den) && (2 * (r * factor) == factor * den
        <==> 2 * r == den)) by (nonlinear_arith)
        requires
            factor > 0,
    ;
}

/// A number of single precision as a double.
pub open spec fn widened(x: int) -> int {
    let negative = is_negative(Format::Single, x);
    if is_nan(Format::Single, x) {
        Format::Double.nan() as int
    } else if is_infinite(Format::Single, x) {
        signed(Format::Double, negative, Format::Double.top())
    } else {
        signed(
            Format::Double,
            negative,
            nearest(
                Format::Double,
                units(Format::Single, magnitude(Format::Single, x)) * power2::pow2(925),
                1,
            ),
        )
    }
}

/// A number of single precision as a double.
pub fn widen(x: u32) -> (z: u64)
    ensures
        z == widened(x as int),
{
    let f = Format::Single;
    let negative: bool = sign_test(f, x as u64);
    if test_nan(f, x as u64) {
        return 0x7ff8_0000_0000_0000;
    }
    if !test_finite(f, x as u64) {
        return with_sign(Format::Double, negative, 0x7ff0_0000_0000_0000);
    }
    let num = units_of(f, without_sign(f, x as u64)).shifted(925);
    with_sign(Format::Double, negative, nearest_pattern(Format::Double, &num, &Big::new(1)))
}

// ---- Order and rounding ----

/// A number in a higher place has more units.
pub proof fn lemma_value_increases(f: Format, x: int, y: int)
    requires
        place(f, x) <= place(f, y),
    ensures
        value(f, x) <= value(f, y),
{
    let (p, q) = (magnitude(f, x), magnitude(f, y));
    if p < q {
        lemma_units_increase(f, p, q);
    } else if q < p {
        lemma_units_increase(f, q, p);
    }
    assert(units(f, 0) == 0) by {
        assert(0 * power2::pow2(0) == 0) by (nonlinear_arith);
    }
    if is_negative(f, x) && is_negative(f, y) {
    } else if is_negative(f, y) {
        assert(p == 0 && q == 0);
    }
}

/// Sums are in the order of what is added to a finite number.
pub proof fn lemma_sum_is_monotone(f: Format, x: int, y: int, z: int)
    requires
        f.has(x),
        f.has(y),
        f.has(z),
        !is_nan(f, x),
        !is_nan(f, y),
        is_finite(f, z),
        place(f, x) <= place(f, y),
    ensures
        place(f, added(f, x, z)) <= place(f, added(f, y, z)),
        !is_nan(f, added(f, x, z)),
        !is_nan(f, added(f, y, z)),
{
    let s = value(f, x) + value(f, z);
    let t = value(f, y) + value(f, z);
    lemma_nearest_exists(f, s as nat, 1);
    lemma_nearest_exists(f, (-s) as nat, 1);
    lemma_nearest_exists(f, t as nat, 1);
    lemma_nearest_exists(f, (-t) as nat, 1);
    if is_finite(f, x) && is_finite(f, y) {
        lemma_value_increases(f, x, y);
        if s > 0 {
            lemma_rounding_is_monotone(
                f,
                nearest(f, s as nat, 1),
                s as nat,
                1,
                nearest(f, t as nat, 1),
                t as nat,
                1,
            );
        } else if t < 0 {
            lemma_rounding_is_monotone(
                f,
                nearest(f, (-t) as nat, 1),
                (-t) as nat,
                1,
                nearest(f, (-s) as nat, 1),
                (-s) as nat,
                1,
            );
        }
    }
}

/// Products with a number that is not negative are in the order of the other factor.
pub proof fn lemma_product_is_monotone(f: Format, x: int, y: int, z: int)
    requires
        f.has(x),
        f.has(y),
        f.has(z),
        is_finite(f, x),
        is_finite(f, y),
        is_finite(f, z),
        !is_negative(f, z),
        place(f, x) <= place(f, y),
    ensures
        place(f, multiplied(f, x, z)) <= place(f, multiplied(f, y, z)),
        !is_nan(f, multiplied(f, x, z)),
        !is_nan(f, multiplied(f, y, z)),
{
    let den = power2::pow2(f.scale());
    power2::lemma_pow2_pos(f.scale());
    let (p, q, r) = (magnitude(f, x), magnitude(f, y), magnitude(f, z));
    let a = units(f, p) * units(f, r);
    let b = units(f, q) * units(f, r);
    lemma_nearest_exists(f, a, den);
    lemma_nearest_exists(f, b, den);
    if p < q {
        lemma_units_increase(f, p, q);
    } else if q < p {
        lemma_units_increase(f, q, p);
    }
    if p <= q {
        lemma_product_order(units(f, p), units(f, q), units(f, r), den);
        lemma_rounding_is_monotone(f, nearest(f, a, den), a, den, nearest(f, b, den), b, den);
    }
    if q <= p {
        lemma_product_order(units(f, q), units(f, p), units(f, r), den);
        lemma_rounding_is_monotone(f, nearest(f, b, den), b, den, nearest(f, a, den), a, den);
    }
    if p == 0 {
        assert(a == 0) by {
            assert(0 * power2::pow2(0) == 0) by (nonlinear_arith);
            assert(0 * units(f, r) == 0) by (nonlinear_arith);
        }
        lemma_zero_is_nearest(f, den);
    }
    if q == 0 {
        assert(b == 0) by {
            assert(0 * power2::pow2(0) == 0) by (nonlinear_arith);
            assert(0 * units(f, r) == 0) by (nonlinear_arith);
        }
        lemma_zero_is_nearest(f, den);
    }
}

proof fn lemma_product_order(a: nat, b: nat, c: nat, den: nat)
    requires
        a <= b,
    ensures
        (a * c) * den <= (b * c) * den,
{
    assert((a * c) * den <= (b * c) * den) by (nonlinear_arith)
        requires
            a <= b,
    ;
}

/// Nothing is rounded to zero.
pub proof fn lemma_zero_is_nearest(f: Format, den: nat)
    requires
        den > 0,
    ensures
        nearest(f, 0, den) == 0,
        units(f, 0) == 0,
{
    assert(units(f, 0) == 0) by {
        assert(0 * power2::pow2(0) == 0) by (nonlinear_arith);
    }
    assert(0 * den == 0) by (nonlinear_arith);
    lemma_exact(f, 0, 0, den);
}

/// A sum is a pattern.
pub proof fn lemma_added_range(f: Format, x: int, y: int)
    requires
        f.has(x),
        f.has(y),
    ensures
        f.has(added(f, x, y)),
{
    let sum = value(f, x) + value(f, y);
    lemma_nearest_exists(f, sum as nat, 1);
    lemma_nearest_exists(f, (-sum) as nat, 1);
}

/// A product is a pattern.
pub proof fn lemma_multiplied_range(f: Format, x: int, y: int)
    requires
        f.has(x),
        f.has(y),
    ensures
        f.has(multiplied(f, x, y)),
{
    power2::lemma_pow2_pos(f.scale());
    lemma_nearest_exists(
        f,
        units(f, magnitude(f, x)) * units(f, magnitude(f, y)),
        power2::pow2(f.scale()),
    );
}

/// The order of two numbers does not matter to their sum.
pub proof fn lemma_sum_is_commutative(f: Format, x: int, y: int)
    requires
        f.has(x),
        f.has(y),
    ensures
        added(f, x, y) == added(f, y, x),
{
}

/// A larger count is not a smaller number.
pub proof fn lemma_count_is_monotone(f: Format, m: nat, n: nat)
    requires
        m <= n,
    ensures
        counted(f, m) <= counted(f, n),
        0 <= counted(f, m) <= f.top(),
        0 <= counted(f, n) <= f.top(),
{
    let scale = power2::pow2(f.scale());
    lemma_nearest_exists(f, m * scale, 1);
    lemma_nearest_exists(f, n * scale, 1);
    assert(m * scale <= n * scale) by (nonlinear_arith)
        requires
            m <= n,
    ;
    lemma_rounding_is_monotone(
        f,
        nearest(f, m * scale, 1),
        m * scale,
        1,
        nearest(f, n * scale, 1),
        n * scale,
        1,
    );
}

/// Nothing is zero.
pub proof fn lemma_count_of_nothing(f: Format)
    ensures
        counted(f, 0) == 0,
{
    assert(0 * power2::pow2(f.scale()) == 0) by (nonlinear_arith);
    lemma_zero_is_nearest(f, 1);
}

/// Every index is a finite number.
pub proof fn lemma_count_of_index(f: Format, n: nat)
    requires
        n <= u64::MAX,
    ensures
        counted(f, n) < f.top(),
{
    let scale = power2::pow2(f.scale());
    power2::lemma2_to64();
    power2::lemma2_to64_rest();
    // The number 2^64.
    let p: nat = match f {
        Format::Single => 0x5f80_0000,
        Format::Double => 0x43f0_0000_0000_0000,
    };
    assert(units(f, p) == power2::pow2(64) * scale) by {
        match f {
            Format::Single => {
                power2::lemma_pow2_adds(23, 190);
                power2::lemma_pow2_adds(64, 149);
            },
            Format::Double => {
                power2::lemma_pow2_adds(52, 1086);
                power2::lemma_pow2_adds(64, 1074);
            },
        }
    }
    assert(units(f, p) * 1 == units(f, p)) by (nonlinear_arith);
    lemma_exact(f, p, units(f, p), 1);
    lemma_nearest_exists(f, n * scale, 1);
    assert(n * scale <= power2::pow2(64) * scale) by (nonlinear_arith)
        requires
            n <= power2::pow2(64),
    ;
    lemma_rounding_is_monotone(
        f,
        nearest(f, n * scale, 1),
        n * scale,
        1,
        p,
        units(f, p),
        1,
    );
}

/// A finite number times zero is zero.
pub proof fn lemma_zero_times(f: Format, x: int)
    requires
        f.has(x),
        is_finite(f, x),
        !is_negative(f, x),
    ensures
        multiplied(f, 0, x) == 0,
{
    power2::lemma_pow2_pos(f.scale());
    lemma_zero_is_nearest(f, power2::pow2(f.scale()));
    assert(0 * units(f, magnitude(f, x)) == 0) by (nonlinear_arith);
}

/// Zero does not change a number.
pub proof fn lemma_plus_nothing(f: Format, x: int)
    requires
        f.has(x),
        is_finite(f, x),
    ensures
        place(f, added(f, x, 0)) == place(f, x),
{
    lemma_zero_is_nearest(f, 1);
    let p = magnitude(f, x);
    assert(units(f, p) * 1 == units(f, p)) by (nonlinear_arith);
    lemma_exact(f, p, units(f, p), 1);
    if p > 0 {
        lemma_units_positive(f, p);
    }
}

/// A pattern with the units of a count.
proof fn lemma_pattern_of_count(n: nat) -> (p: nat)
    requires
        0 < n <= 0x20_0000_0000_0000,
    ensures
        units(Format::Double, p) == n * power2::pow2(1074),
        0 < p < Format::Double.top(),
    decreases 0x20_0000_0000_0000 - n,
{
    let f = Format::Double;
    let unit = power2::pow2(1074);
    power2::lemma2_to64();
    power2::lemma_pow2_pos(1074);
    if n == 0x20_0000_0000_0000 {
        let p: nat = 0x10_0000_0000_0000 * 1076;
        assert(power(f, p) == 1075);
        assert(significant(f, p) == 0x10_0000_0000_0000);
        power2::lemma_pow2_adds(1, 1074);
        assert(0x10_0000_0000_0000 * (2 * unit) == 0x20_0000_0000_0000 * unit);
        p
    } else if n >= 0x10_0000_0000_0000 {
        let p: nat = (0x10_0000_0000_0000 * 1074 + n) as nat;
        assert(power(f, p) == 1074);
        assert(significant(f, p) == n);
        p
    } else {
        let q = lemma_pattern_of_count(2 * n);
        // The number two.
        let two: nat = 0x4000_0000_0000_0000;
        power2::lemma2_to64_rest();
        power2::lemma_pow2_adds(52, 1023);
        assert(power(f, two) == 1023);
        assert(significant(f, two) == 0x10_0000_0000_0000);
        power2::lemma_pow2_adds(1, 1074);
        assert(units(f, two) == 2 * unit);
        assert((2 * n) * unit == 2 * (n * unit)) by (nonlinear_arith);
        assert(n * unit >= unit) by (nonlinear_arith)
            requires
                n >= 1,
        ;
        if q < two {
            lemma_units_increase(f, q, two);
        }
        let p = (q - 0x10_0000_0000_0000) as nat;
        let k = power(f, p);
        assert(power(f, q) == k + 1);
        assert(significant(f, q) == significant(f, p));
        power2::lemma_pow2_adds(1, k);
        let m = significant(f, p);
        assert(m * (2 * power2::pow2(k)) == 2 * (m * power2::pow2(k))) by (nonlinear_arith);
        p
    }
}

/// Counts of up to 2^53 are exact in double precision.
pub proof fn lemma_count_is_exact(n: nat)
    requires
        n <= 0x20_0000_0000_0000,
    ensures
        units(Format::Double, counted(Format::Double, n) as nat) == n * power2::pow2(1074),
        0 <= counted(Format::Double, n) < Format::Double.top(),
        n > 0 ==> counted(Format::Double, n) > 0,
{
    let f = Format::Double;
    if n == 0 {
        lemma_count_of_nothing(f);
        lemma_zero_is_nearest(f, 1);
        assert(0 * power2::pow2(1074) == 0) by (nonlinear_arith);
    } else {
        let p = lemma_pattern_of_count(n);
        assert(units(f, p) * 1 == units(f, p)) by (nonlinear_arith);
        lemma_exact(f, p, n * power2::pow2(1074), 1);
    }
}

} // verus!
