//! Facts about scores of single precision.

use crate::compare::pair;
use crate::float::{self, Format};
use crate::single::Single;
use crate::visual::{self, TemporalHash};
use vstd::arithmetic::power2;
use vstd::prelude::*;

verus! {

/// Up to so many windows, a number of single precision counts each of them.
pub const MAX_WINDOWS: usize = 0x100_0000;

/// The number two, by its bits.
pub const TWO: u32 = 0x4000_0000;

/// The units of one and of two.
proof fn lemma_units_of_one()
    ensures
        float::units(Format::Single, 0x3f80_0000) == power2::pow2(149),
        float::units(Format::Single, 0x4000_0000) == 2 * power2::pow2(149),
        power2::pow2(149) > 0,
{
    power2::lemma2_to64();
    power2::lemma_pow2_adds(23, 126);
    power2::lemma_pow2_adds(23, 127);
    power2::lemma_pow2_adds(1, 149);
    power2::lemma_pow2_pos(149);
}

/// A pattern with the units of a count.
proof fn lemma_pattern_of_count(n: nat) -> (p: nat)
    requires
        0 < n <= MAX_WINDOWS,
    ensures
        float::units(Format::Single, p) == n * power2::pow2(149),
        p < Format::Single.top(),
    decreases MAX_WINDOWS - n,
{
    let f = Format::Single;
    power2::lemma2_to64();
    if n == MAX_WINDOWS {
        let p: nat = 0x80_0000 * 151;
        assert(float::power(f, p) == 150);
        assert(float::significant(f, p) == 0x80_0000);
        power2::lemma_pow2_adds(1, 149);
        assert(0x80_0000 * (2 * power2::pow2(149)) == 0x100_0000 * power2::pow2(149));
        p
    } else if n >= 0x80_0000 {
        let p: nat = (0x80_0000 * 149 + n) as nat;
        assert(float::power(f, p) == 149);
        assert(float::significant(f, p) == n);
        p
    } else {
        let q = lemma_pattern_of_count(2 * n);
        lemma_units_of_one();
        let unit = power2::pow2(149);
        assert((2 * n) * unit == 2 * (n * unit)) by (nonlinear_arith);
        assert(n * unit >= unit) by (nonlinear_arith)
            requires
                n >= 1,
        ;
        if q < 0x4000_0000 {
            float::lemma_units_increase(f, q, 0x4000_0000);
        }
        let p = (q - 0x80_0000) as nat;
        let k = float::power(f, p);
        assert(float::power(f, q) == k + 1);
        assert(float::significant(f, q) == float::significant(f, p));
        power2::lemma_pow2_adds(1, k);
        let m = float::significant(f, p);
        assert(m * (2 * power2::pow2(k)) == 2 * (m * power2::pow2(k))) by (nonlinear_arith);
        p
    }
}

/// Counts of windows are exact.
pub proof fn lemma_count_is_exact(n: nat)
    requires
        n <= MAX_WINDOWS,
    ensures
        float::units(Format::Single, float::counted(Format::Single, n) as nat) == n * power2::pow2(
            149,
        ),
        0 <= float::counted(Format::Single, n) < Format::Single.top(),
        n > 0 ==> float::counted(Format::Single, n) > 0,
{
    let f = Format::Single;
    if n == 0 {
        float::lemma_count_of_nothing(f);
        float::lemma_zero_is_nearest(f, 1);
        assert(0 * power2::pow2(149) == 0) by (nonlinear_arith);
    } else {
        let p = lemma_pattern_of_count(n);
        assert(float::units(f, p) * 1 == float::units(f, p)) by (nonlinear_arith);
        float::lemma_exact(f, p, n * power2::pow2(149), 1);
        if p == 0 {
            float::lemma_zero_is_nearest(f, 1);
            lemma_units_of_one();
            assert(n * power2::pow2(149) > 0) by (nonlinear_arith)
                requires
                    n > 0,
                    power2::pow2(149) > 0,
            ;
        }
    }
}

/// A count of windows and one is the next count.
proof fn lemma_next_count(n: nat)
    requires
        n < MAX_WINDOWS,
    ensures
        Single::counted(n).added(Single::one()) == Single::counted(n + 1),
        Single::counted(n + 1).pattern() == float::counted(Format::Single, n + 1),
        float::added(
            Format::Single,
            float::negated(Format::Single, float::counted(Format::Single, n)),
            float::negated(Format::Single, pair::ONE as int),
        ) == float::negated(Format::Single, float::counted(Format::Single, n + 1)),
        float::added(Format::Single, float::counted(Format::Single, n), pair::ONE as int)
            == float::counted(Format::Single, n + 1),
{
    lemma_units_of_one();
    lemma_count_is_exact(n);
    lemma_count_is_exact(n + 1);
    let unit = power2::pow2(149);
    assert((n + 1) * unit == n * unit + unit) by (nonlinear_arith);
    assert(n * unit >= 0) by (nonlinear_arith);
}

/// A number is once itself.
pub proof fn lemma_whole_of_itself(x: Single)
    requires
        0 < x.bits < Format::Single.top(),
    ensures
        x.divided(x) == Single::one(),
{
    let f = Format::Single;
    lemma_units_of_one();
    float::lemma_units_positive(f, x.bits as nat);
    let u = float::units(f, x.bits as nat);
    assert(u * power2::pow2(149) == power2::pow2(149) * u) by (nonlinear_arith);
    float::lemma_exact(f, pair::ONE as nat, u * power2::pow2(149), u);
}

/// Quotients by a positive number are in the order of what is divided.
pub proof fn lemma_quotient_is_monotone(x: Single, y: Single, z: Single)
    requires
        float::is_finite(Format::Single, x.pattern()),
        float::is_finite(Format::Single, y.pattern()),
        0 < z.bits < Format::Single.top(),
        x.place() <= y.place(),
    ensures
        x.divided(z).place() <= y.divided(z).place(),
        !x.divided(z).is_nan(),
        !y.divided(z).is_nan(),
{
    let f = Format::Single;
    let unit = power2::pow2(149);
    let (p, q) = (float::magnitude(f, x.pattern()), float::magnitude(f, y.pattern()));
    let (a, b) = (float::units(f, p) * unit, float::units(f, q) * unit);
    let den = float::units(f, z.bits as nat);
    float::lemma_units_positive(f, z.bits as nat);
    float::lemma_nearest_exists(f, a, den);
    float::lemma_nearest_exists(f, b, den);
    float::lemma_zero_is_nearest(f, den);
    assert(0 * unit == 0) by (nonlinear_arith);
    if p < q {
        float::lemma_units_increase(f, p, q);
    } else if q < p {
        float::lemma_units_increase(f, q, p);
    }
    let (r, s) = (float::nearest(f, a, den), float::nearest(f, b, den));
    if p <= q {
        assert(a * den <= b * den) by (nonlinear_arith)
            requires
                a == float::units(f, p) * unit,
                b == float::units(f, q) * unit,
                float::units(f, p) <= float::units(f, q),
        ;
        float::lemma_rounding_is_monotone(f, r, a, den, s, b, den);
    }
    if q <= p {
        assert(b * den <= a * den) by (nonlinear_arith)
            requires
                a == float::units(f, p) * unit,
                b == float::units(f, q) * unit,
                float::units(f, q) <= float::units(f, p),
        ;
        float::lemma_rounding_is_monotone(f, s, b, den, r, a, den);
    }
    let (negative, other) = (
        float::is_negative(f, x.pattern()),
        float::is_negative(f, y.pattern()),
    );
    assert(x.divided(z).pattern() == float::signed(f, negative, r));
    assert(y.divided(z).pattern() == float::signed(f, other, s));
}

/// The fraction that a number of differing bits is: nothing for none, at most one for up to all
/// hash bits, at most two in any case.
proof fn lemma_normalized(distance: nat)
    requires
        distance <= 1024,
    ensures
        0 <= visual::normalized(distance).bits <= TWO,
        distance == 0 ==> visual::normalized(distance).bits == 0,
        distance <= 1000 ==> visual::normalized(distance).bits <= pair::ONE,
{
    let f = Format::Single;
    let all = Single::counted(1000);
    let some = Single::counted(distance);
    lemma_count_is_exact(distance);
    lemma_count_is_exact(1000);
    lemma_count_is_exact(2000);
    float::lemma_count_is_monotone(f, distance, 2000);
    lemma_quotient_is_monotone(some, Single::counted(2000), all);
    lemma_units_of_one();
    let unit = power2::pow2(149);
    let den = float::units(f, all.bits as nat);
    let num = float::units(f, some.bits as nat);
    float::lemma_units_positive(f, all.bits as nat);
    assert((2000 * unit) * unit == (2 * unit) * (1000 * unit)) by (nonlinear_arith);
    float::lemma_exact(f, TWO as nat, (2000 * unit) * unit, den);
    float::lemma_nearest_exists(f, num * unit, den);
    assert(some.divided(all).pattern() == float::nearest(f, num * unit, den));
    if distance == 0 {
        float::lemma_zero_is_nearest(f, den);
        assert(0 * unit == 0) by (nonlinear_arith);
        assert(distance * unit == 0) by (nonlinear_arith)
            requires
                distance == 0,
        ;
    }
    if distance <= 1000 {
        float::lemma_count_is_monotone(f, distance, 1000);
        lemma_quotient_is_monotone(some, all, all);
        lemma_whole_of_itself(all);
    }
}

/// The similarity of two windows that differ in so many bits.
pub open spec fn similarity_at(distance: nat) -> Single {
    Single::one().subtracted(visual::normalized(distance))
}

/// A similarity is one where no bits differ, not negative where no more than the hash bits do,
/// and from minus one to one in any case.
pub proof fn lemma_similarity(distance: nat)
    requires
        distance <= 1024,
    ensures
        -(pair::ONE as int) <= similarity_at(distance).place() <= pair::ONE,
        distance == 0 ==> similarity_at(distance).bits == pair::ONE,
        distance <= 1000 ==> similarity_at(distance).place() >= 0,
        similarity_at(distance).pattern() == float::subtracted(
            Format::Single,
            pair::ONE as int,
            visual::normalized(distance).pattern(),
        ),
{
    let f = Format::Single;
    lemma_normalized(distance);
    lemma_units_of_one();
    float::lemma_zero_is_nearest(f, 1);
    let unit = power2::pow2(149);
    assert(unit * 1 == unit) by (nonlinear_arith);
    float::lemma_exact(f, pair::ONE as nat, unit, 1);
    let one = pair::ONE as int;
    let x = float::negated(f, visual::normalized(distance).pattern());
    let none = float::negated(f, 0);
    let all = float::negated(f, pair::ONE as int);
    let twice = float::negated(f, TWO as int);
    float::lemma_added_range(f, one, x);
    float::lemma_sum_is_commutative(f, one, x);
    float::lemma_sum_is_monotone(f, x, none, one);
    float::lemma_sum_is_monotone(f, twice, x, one);
    assert(float::added(f, none, one) == one);
    assert(float::added(f, twice, one) == all);
    if distance <= 1000 {
        float::lemma_sum_is_monotone(f, all, x, one);
        assert(float::added(f, all, one) == 0);
    }
}

/// Whether each of the first `n` windows of `clip` differs in at most so many bits from the one of
/// `source` at its place.
pub open spec fn within(
    clip: Seq<TemporalHash>,
    source: Seq<TemporalHash>,
    offset: int,
    n: nat,
    bits: nat,
) -> bool {
    forall|i: int|
        0 <= i < n ==> visual::hash_distance(#[trigger] clip[i], source[offset + i]) <= bits
}

/// The number of windows, as far as sums count them.
pub open spec fn counted_windows(n: nat) -> nat {
    if n <= MAX_WINDOWS {
        n
    } else {
        MAX_WINDOWS as nat
    }
}

/// One more does not change a sum that has reached the largest count.
proof fn lemma_count_is_full()
    ensures
        float::added(
            Format::Single,
            float::counted(Format::Single, MAX_WINDOWS as nat),
            pair::ONE as int,
        ) == float::counted(Format::Single, MAX_WINDOWS as nat),
        float::added(
            Format::Single,
            float::negated(Format::Single, float::counted(Format::Single, MAX_WINDOWS as nat)),
            float::negated(Format::Single, pair::ONE as int),
        ) == float::negated(
            Format::Single,
            float::counted(Format::Single, MAX_WINDOWS as nat),
        ),
{
    let f = Format::Single;
    lemma_units_of_one();
    lemma_count_is_exact(MAX_WINDOWS as nat);
    let unit = power2::pow2(149);
    let p: nat = 0x4b80_0000;
    power2::lemma2_to64();
    power2::lemma_pow2_adds(23, 150);
    power2::lemma_pow2_adds(24, 149);
    power2::lemma_pow2_adds(1, 149);
    assert(float::power(f, p) == 150);
    assert(float::significant(f, p) == 0x80_0000);
    assert(float::units(f, p) == MAX_WINDOWS * unit);
    let full = float::counted(f, MAX_WINDOWS as nat) as nat;
    if full < p {
        float::lemma_units_increase(f, full, p);
    } else if p < full {
        float::lemma_units_increase(f, p, full);
    }
    float::lemma_next(f, p);
    float::lemma_next(f, (p - 1) as nat);
    let num = (MAX_WINDOWS + 1) as nat * unit;
    assert(num == MAX_WINDOWS * unit + unit) by (nonlinear_arith)
        requires
            num == (MAX_WINDOWS + 1) as nat * unit,
    ;
    assert(float::middle(f, p) * 1 == float::middle(f, p)) by (nonlinear_arith);
    assert(float::middle(f, (p - 1) as nat) * 1 == float::middle(f, (p - 1) as nat))
        by (nonlinear_arith);
    assert(float::is_nearest(f, p, num, 1));
    float::lemma_nearest_is_unique(f, p, num, 1);
}

/// A sum of similarities is no larger than the number of windows, either way; it is not negative
/// where no window has a negative similarity, and is the number of windows where all are equal, as
/// long as it counts them.
pub proof fn lemma_sum(clip: Seq<TemporalHash>, source: Seq<TemporalHash>, offset: int, n: nat)
    requires
        within(clip, source, offset, n, 1024),
    ensures
        -float::counted(Format::Single, counted_windows(n)) <= pair::similarity_sum(
            clip,
            source,
            offset,
            n,
        ).place() <= float::counted(Format::Single, counted_windows(n)) < Format::Single.top(),
        within(clip, source, offset, n, 1000) ==> pair::similarity_sum(
            clip,
            source,
            offset,
            n,
        ).place() >= 0,
        within(clip, source, offset, n, 0) && n <= MAX_WINDOWS ==> pair::similarity_sum(
            clip,
            source,
            offset,
            n,
        ) == Single::counted(n),
    decreases n,
{
    let f = Format::Single;
    lemma_count_is_exact(counted_windows(n));
    if n == 0 {
        float::lemma_count_of_nothing(f);
    } else {
        let m = (n - 1) as nat;
        lemma_sum(clip, source, offset, m);
        let k = counted_windows(m);
        lemma_count_is_exact(k);
        if m < MAX_WINDOWS {
            lemma_next_count(m);
        } else {
            lemma_count_is_full();
        }
        let before = pair::similarity_sum(clip, source, offset, m).pattern();
        let distance = visual::hash_distance(clip[n - 1], source[offset + n - 1]);
        lemma_similarity(distance);
        let x = similarity_at(distance).pattern();
        let one = pair::ONE as int;
        let (count, minus) = (float::counted(f, k), float::negated(f, float::counted(f, k)));
        let least = float::negated(f, one);
        float::lemma_added_range(f, before, x);
        // From above.
        float::lemma_sum_is_monotone(f, before, count, x);
        float::lemma_sum_is_commutative(f, count, x);
        float::lemma_sum_is_monotone(f, x, one, count);
        float::lemma_sum_is_commutative(f, one, count);
        // From below.
        float::lemma_sum_is_monotone(f, minus, before, x);
        float::lemma_sum_is_commutative(f, minus, x);
        float::lemma_sum_is_monotone(f, least, x, minus);
        float::lemma_sum_is_commutative(f, least, minus);
        if within(clip, source, offset, n, 1000) {
            assert(within(clip, source, offset, m, 1000));
            float::lemma_sum_is_monotone(f, 0, before, x);
            float::lemma_sum_is_commutative(f, 0, x);
            float::lemma_plus_nothing(f, x);
        }
        if within(clip, source, offset, n, 0) {
            assert(within(clip, source, offset, m, 0));
        }
    }
}

/// A mean similarity is at most one; it is not negative where no window has a negative similarity,
/// and is one where all windows are equal, as long as the sum counts them.
pub proof fn lemma_mean(clip: Seq<TemporalHash>, source: Seq<TemporalHash>, offset: int)
    requires
        0 < clip.len() <= u64::MAX,
        within(clip, source, offset, clip.len(), 1024),
    ensures
        pair::mean_similarity(clip, source, offset).is_at_most(Single::one()),
        within(clip, source, offset, clip.len(), 1000) ==> Single::zero().is_at_most(
            pair::mean_similarity(clip, source, offset),
        ),
        within(clip, source, offset, clip.len(), 0) && clip.len() <= MAX_WINDOWS
            ==> pair::mean_similarity(clip, source, offset) == Single::one(),
{
    let f = Format::Single;
    let n = clip.len();
    let k = counted_windows(n);
    lemma_sum(clip, source, offset, n);
    lemma_count_is_exact(k);
    float::lemma_count_is_monotone(f, k, n);
    float::lemma_count_of_index(f, n);
    let sum = pair::similarity_sum(clip, source, offset, n);
    let count = Single::counted(n);
    lemma_whole_of_itself(count);
    lemma_quotient_is_monotone(sum, count, count);
    if within(clip, source, offset, n, 1000) {
        let zero = Single::zero();
        lemma_quotient_is_monotone(zero, sum, count);
        let den = float::units(f, count.bits as nat);
        float::lemma_units_positive(f, count.bits as nat);
        float::lemma_zero_is_nearest(f, den);
        assert(0 * power2::pow2(149) == 0) by (nonlinear_arith);
        assert(zero.divided(count) == zero);
    }
}

/// Where all windows match, the fraction of those that do is one.
pub proof fn lemma_all_match(
    clip: Seq<TemporalHash>,
    source: Seq<TemporalHash>,
    offset: int,
    tolerance: Single,
)
    requires
        0 < clip.len() <= u64::MAX,
        pair::matching_windows(clip, source, offset, tolerance, clip.len()) == clip.len(),
    ensures
        pair::matching_fraction(clip, source, offset, tolerance) == Single::one(),
{
    let f = Format::Single;
    lemma_count_is_exact(1);
    float::lemma_count_is_monotone(f, 1, clip.len());
    float::lemma_count_of_index(f, clip.len());
    lemma_whole_of_itself(Single::counted(clip.len()));
}

/// A tolerance that is not negative lets windows pass that do not differ.
pub proof fn lemma_no_difference_is_tolerated(tolerance: Single)
    requires
        Single::zero().is_at_most(tolerance),
    ensures
        visual::normalized(0).is_at_most(tolerance),
        !tolerance.multiplied((Single { bits: pair::MIDDLE_FACTOR })).is_less(
            visual::normalized(0),
        ),
{
    let f = Format::Single;
    lemma_normalized(0);
    let x = tolerance.pattern();
    let factor = pair::MIDDLE_FACTOR as int;
    let p = float::magnitude(f, x);
    let num = float::units(f, p) * float::units(f, factor as nat);
    power2::lemma_pow2_pos(149);
    float::lemma_nearest_exists(f, num, power2::pow2(149));
    if p == 0 {
        float::lemma_zero_is_nearest(f, power2::pow2(149));
        assert(0 * float::units(f, factor as nat) == 0) by (nonlinear_arith);
    }
    assert(float::place(f, float::multiplied(f, x, factor)) >= 0);
}

} // verus!
