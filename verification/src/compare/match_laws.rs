//! What matches say of the windows of two files: which windows agree, how many of them, and in how
//! many bits they differ.

use crate::compare::pair;
use crate::compare::scores;
use crate::float::{self, Format};
use crate::single::Single;
use crate::visual::{self, TemporalHash};
use vstd::arithmetic::power2;
use vstd::prelude::*;

verus! {

/// The units of the number one.
pub open spec fn unit() -> int {
    power2::pow2(149) as int
}

/// The units of a number, below zero for a negative one.
pub open spec fn value(x: Single) -> int {
    float::value(Format::Single, x.pattern())
}

/// A rounded quotient of up to 2^24 is near to the quotient.
pub proof fn lemma_near(num: nat, den: nat) -> (p: nat)
    requires
        den > 0,
        num <= (0x100_0000 * unit()) * den,
    ensures
        p == float::nearest(Format::Single, num, den),
        p < Format::Single.top(),
        ({
            let u = float::units(Format::Single, p) as int;
            let k = 0x80_0000int;
            &&& 2 * k * num <= (2 * k * u + u + k) * den
            &&& 2 * k * num >= (2 * k * u - u - k) * den
        }),
{
    let f = Format::Single;
    let p = float::nearest(f, num, den);
    float::lemma_nearest_exists(f, num, den);
    let most: nat = 0x4b80_0000;
    power2::lemma2_to64();
    power2::lemma_pow2_adds(23, 150);
    power2::lemma_pow2_adds(24, 149);
    assert(float::power(f, most) == 150);
    assert(float::significant(f, most) == 0x80_0000);
    let limit = float::units(f, most);
    assert(limit == 0x100_0000 * unit());
    float::lemma_exact(f, most, limit * den, den);
    assert(num * den <= (limit * den) * den) by (nonlinear_arith)
        requires
            num <= limit * den,
    ;
    float::lemma_rounding_is_monotone(f, p, num, den, most, limit * den, den);
    let u = float::units(f, p) as int;
    let k = 0x80_0000int;
    float::lemma_next(f, p);
    lemma_gap(p);
    let gap = power2::pow2(float::power(f, p)) as int;
    assert(2 * k * num <= (2 * k * u + u + k) * den) by (nonlinear_arith)
        requires
            2 * num <= (2 * u + gap) * den,
            gap * k <= u + k,
            den > 0,
            k > 0,
    ;
    if p > 0 {
        let before = (p - 1) as nat;
        float::lemma_next(f, before);
        lemma_gap(before);
        float::lemma_units_increase(f, before, p);
        let less = power2::pow2(float::power(f, before)) as int;
        assert(2 * k * num >= (2 * k * u - u - k) * den) by (nonlinear_arith)
            requires
                2 * num >= (2 * u - less) * den,
                less * k <= u + k,
                den > 0,
                k > 0,
        ;
    } else {
        float::lemma_zero_is_nearest(f, 1);
        assert(2 * k * num >= (2 * k * u - u - k) * den) by (nonlinear_arith)
            requires
                u == 0,
                num >= 0,
                den > 0,
                k > 0,
        ;
    }
    p
}

/// A number is far larger than its distance to the next one, or has the smallest such distance.
proof fn lemma_gap(p: nat)
    ensures
        power2::pow2(float::power(Format::Single, p)) * 0x80_0000 <= float::units(
            Format::Single,
            p,
        ) + 0x80_0000,
{
    let f = Format::Single;
    let gap = power2::pow2(float::power(f, p)) as int;
    power2::lemma2_to64();
    let m = float::significant(f, p) as int;
    if p >= 0x80_0000 {
        assert(m * gap >= 0x80_0000 * gap) by (nonlinear_arith)
            requires
                m >= 0x80_0000,
                gap >= 0,
        ;
    } else {
        assert(m * gap >= 0) by (nonlinear_arith)
            requires
                m >= 0,
                gap >= 0,
        ;
    }
}

/// A sum of numbers of up to 2^23 is near to the exact one.
pub proof fn lemma_sum_near(x: Single, y: Single)
    requires
        float::is_finite(Format::Single, x.pattern()),
        float::is_finite(Format::Single, y.pattern()),
        -0x100_0000 * unit() <= value(x) + value(y) <= 0x100_0000 * unit(),
    ensures
        float::is_finite(Format::Single, x.added(y).pattern()),
        ({
            let exact = value(x) + value(y);
            let sum = value(x.added(y));
            let size = if sum >= 0 { sum } else { -sum };
            let k = 0x80_0000int;
            -size - k <= 2 * k * (exact - sum) <= size + k
        }),
{
    let f = Format::Single;
    let exact = value(x) + value(y);
    let size = if exact >= 0 { exact } else { -exact };
    float::lemma_zero_is_nearest(f, 1);
    float::lemma_added_range(f, x.pattern(), y.pattern());
    let p = lemma_near(size as nat, 1);
    let u = float::units(f, p) as int;
    assert(float::magnitude(f, x.added(y).pattern()) == if exact == 0 {
        0
    } else {
        p
    });
    if exact == 0 {
        assert(p == 0);
    }
}

// ---- Distances of windows ----

/// The bits in which two windows differ, as a fraction of 1000, in single precision.
pub open spec fn fraction(x: TemporalHash, y: TemporalHash) -> Single {
    Single::counted(visual::hash_distance(x, y)).divided(Single::counted(1000))
}

/// The numbers of bits in which the first `n` windows of `clip` differ from those of `source` that
/// start at `offset`, taken together.
pub open spec fn total_distance(
    clip: Seq<TemporalHash>,
    source: Seq<TemporalHash>,
    offset: int,
    n: nat,
) -> nat
    decreases n,
{
    if n == 0 {
        0
    } else {
        total_distance(clip, source, offset, (n - 1) as nat) + visual::hash_distance(
            clip[n - 1],
            source[offset + n - 1],
        )
    }
}

pub proof fn lemma_one()
    ensures
        value(Single::one()) == unit(),
        value(Single::zero()) == 0,
        unit() > 0x1_0000_0000_0000_0000,
        float::units(Format::Single, float::counted(Format::Single, 1000) as nat) == 1000 * unit(),
        Single::counted(1000).pattern() == float::counted(Format::Single, 1000),
        0 < float::counted(Format::Single, 1000) < Format::Single.top(),
{
    let f = Format::Single;
    power2::lemma2_to64();
    power2::lemma_pow2_adds(23, 126);
    power2::lemma_pow2_strictly_increases(64, 149);
    scores::lemma_count_is_exact(1000);
    float::lemma_zero_is_nearest(f, 1);
    assert(float::power(f, 0x3f80_0000) == 126);
}

/// The distance of two windows, as a fraction, is a thousandth of the number of bits, but for
/// rounding.
pub proof fn law_normalized_distance_is_the_fraction(distance: nat)
    requires
        distance <= 1024,
    ensures
        ({
            let apart = distance * unit() - 1000 * value(visual::normalized(distance));
            -2001 * unit() <= 0x100_0000 * apart <= 2001 * unit()
        }),
        0 <= value(visual::normalized(distance)) <= 2 * unit(),
        visual::normalized(distance).place() >= 0,
        float::is_finite(Format::Single, visual::normalized(distance).pattern()),
        visual::normalized(distance) == Single::counted(distance).divided(Single::counted(1000)),
{
    let f = Format::Single;
    let u = unit();
    lemma_one();
    scores::lemma_count_is_exact(distance);
    let num = distance * u * u;
    assert(0 <= num && num <= (0x100_0000 * u) * (1000 * u)) by (nonlinear_arith)
        requires
            num == distance * u * u,
            0 <= distance <= 1024,
            u > 0,
    ;
    let p = lemma_near(num as nat, (1000 * u) as nat);
    let n = float::units(f, p) as int;
    assert((distance * u) * u == num);
    assert(visual::normalized(distance).pattern() == p);
    let k = 0x80_0000int;
    assert(2 * k * (distance * u) <= (2 * k * n + n + k) * 1000) by (nonlinear_arith)
        requires
            2 * k * num <= (2 * k * n + n + k) * (1000 * u),
            num == distance * u * u,
            u > 0,
    ;
    assert(2 * k * (distance * u) >= (2 * k * n - n - k) * 1000) by (nonlinear_arith)
        requires
            2 * k * num >= (2 * k * n - n - k) * (1000 * u),
            num == distance * u * u,
            u > 0,
    ;
    assert(distance * u <= 1024 * u) by (nonlinear_arith)
        requires
            distance <= 1024,
            u > 0,
    ;
    assert(n <= 2 * u);
}

/// The similarity of two windows is one minus a thousandth of the number of bits, but for rounding.
proof fn lemma_similarity_near(distance: nat)
    requires
        distance <= 1024,
    ensures
        ({
            let apart = (1000 - distance) * unit() - 1000 * value(scores::similarity_at(distance));
            -4001 * unit() <= 0x100_0000 * apart <= 4001 * unit()
        }),
        -unit() <= value(scores::similarity_at(distance)) <= unit(),
        float::is_finite(Format::Single, scores::similarity_at(distance).pattern()),
{
    let f = Format::Single;
    let u = unit();
    lemma_one();
    law_normalized_distance_is_the_fraction(distance);
    let norm = visual::normalized(distance);
    let minus = Single::of(float::negated(f, norm.pattern()));
    float::lemma_zero_is_nearest(f, 1);
    assert(value(minus) == -value(norm));
    lemma_sum_near(Single::one(), minus);
    let s = scores::similarity_at(distance);
    assert(s == Single::one().added(minus));
    scores::lemma_similarity(distance);
    lemma_values_of_places(s);
    assert((1000 - distance) * u == 1000 * u - distance * u) by (nonlinear_arith);
}

/// A number whose place is between those of minus one and one has a value between them.
proof fn lemma_values_of_places(x: Single)
    requires
        -0x3f80_0000 <= x.place() <= 0x3f80_0000,
    ensures
        -unit() <= value(x) <= unit(),
{
    let f = Format::Single;
    lemma_one();
    let p = float::magnitude(f, x.pattern());
    if p < 0x3f80_0000 {
        float::lemma_units_increase(f, p, 0x3f80_0000);
    }
}

proof fn lemma_sum_of_similarities(
    clip: Seq<TemporalHash>,
    source: Seq<TemporalHash>,
    offset: int,
    n: nat,
)
    requires
        n <= scores::MAX_WINDOWS,
        scores::within(clip, source, offset, n, 1024),
    ensures
        float::is_finite(
            Format::Single,
            pair::similarity_sum(clip, source, offset, n).pattern(),
        ),
        -(n * unit()) <= value(pair::similarity_sum(clip, source, offset, n)) <= n * unit(),
        ({
            let exact = (1000 * n - total_distance(clip, source, offset, n)) * unit();
            let apart = exact - 1000 * value(pair::similarity_sum(clip, source, offset, n));
            -(1000 * (n * (n + 6)) * unit()) <= 0x100_0000 * apart <= 1000 * (n * (n + 6)) * unit()
        }),
    decreases n,
{
    let f = Format::Single;
    let u = unit();
    lemma_one();
    if n == 0 {
        assert(0 * u == 0) by (nonlinear_arith);
        assert(1000 * (0int * (0int + 6)) * u == 0) by (nonlinear_arith);
    } else {
        let m = (n - 1) as nat;
        lemma_sum_of_similarities(clip, source, offset, m);
        let d = visual::hash_distance(clip[n - 1], source[offset + n - 1]);
        lemma_similarity_near(d);
        scores::lemma_sum(clip, source, offset, n);
        let before = pair::similarity_sum(clip, source, offset, m);
        let sum = pair::similarity_sum(clip, source, offset, n);
        let s = scores::similarity_at(d);
        assert(m * u + u == n * u && m * u >= 0) by (nonlinear_arith)
            requires
                n == m + 1,
                u > 0,
        ;
        assert(n * u <= 0x100_0000 * u) by (nonlinear_arith)
            requires
                n <= 0x100_0000,
                u > 0,
        ;
        lemma_sum_near(before, s);
        assert(sum == before.added(s));
        lemma_values_of_counts(sum, n);
        let total = total_distance(clip, source, offset, m) as int;
        assert((1000 * n - (total + d)) * u == (1000 * m - total) * u + (1000 - d) * u)
            by (nonlinear_arith)
            requires
                n == m + 1,
        ;
        assert(1000 * (n * (n + 6)) * u == 1000 * (m * (m + 6)) * u + 2000 * (n * u) + 5000 * u)
            by (nonlinear_arith)
            requires
                n == m + 1,
        ;
    }
}

/// A number whose place is between those of a count and its opposite has a value between them.
proof fn lemma_values_of_counts(x: Single, n: nat)
    requires
        n <= scores::MAX_WINDOWS,
        -float::counted(Format::Single, n) <= x.place() <= float::counted(Format::Single, n),
    ensures
        -(n * unit()) <= value(x) <= n * unit(),
{
    let f = Format::Single;
    scores::lemma_count_is_exact(n);
    let p = float::magnitude(f, x.pattern());
    let q = float::counted(f, n) as nat;
    if p < q {
        float::lemma_units_increase(f, p, q);
    }
}

/// The score of an alignment is the fraction of agreeing bits over all of its windows: one minus a
/// thousandth of the mean number of bits in which they differ, but for rounding.
pub proof fn law_score_is_the_agreeing_fraction(
    clip: Seq<TemporalHash>,
    source: Seq<TemporalHash>,
    offset: int,
)
    requires
        0 < clip.len() <= scores::MAX_WINDOWS,
        scores::within(clip, source, offset, clip.len(), 1024),
    ensures
        ({
            let n = clip.len() as int;
            let exact = (1000 * n - total_distance(clip, source, offset, clip.len())) * unit();
            let apart = exact - 1000 * n * value(pair::mean_similarity(clip, source, offset));
            -(1000 * (n * (n + 9)) * unit()) <= 0x100_0000 * apart <= 1000 * (n * (n + 9)) * unit()
        }),
        pair::mean_similarity(clip, source, offset).is_at_most(Single::one()),
{
    let f = Format::Single;
    let u = unit();
    let n = clip.len() as int;
    lemma_one();
    lemma_sum_of_similarities(clip, source, offset, clip.len());
    scores::lemma_count_is_exact(clip.len());
    scores::lemma_mean(clip, source, offset);
    let sum = pair::similarity_sum(clip, source, offset, clip.len());
    let count = Single::counted(clip.len());
    let mean = pair::mean_similarity(clip, source, offset);
    let size = float::units(f, float::magnitude(f, sum.pattern())) as int;
    let num = size * u;
    assert(0 <= num && num <= (0x100_0000 * u) * (n * u)) by (nonlinear_arith)
        requires
            num == size * u,
            0 <= size <= n * u,
            n >= 1,
            u > 0,
    ;
    assert(n * u > 0) by (nonlinear_arith)
        requires
            n > 0,
            u > 0,
    ;
    let p = lemma_near(num as nat, (n * u) as nat);
    let m = float::units(f, p) as int;
    assert(float::magnitude(f, mean.pattern()) == p);
    assert(float::is_negative(f, mean.pattern()) == float::is_negative(f, sum.pattern()));
    let k = 0x80_0000int;
    assert(2 * k * size <= (2 * k * m + m + k) * n) by (nonlinear_arith)
        requires
            2 * k * num <= (2 * k * m + m + k) * (n * u),
            num == size * u,
            u > 0,
    ;
    assert(2 * k * size >= (2 * k * m - m - k) * n) by (nonlinear_arith)
        requires
            2 * k * num >= (2 * k * m - m - k) * (n * u),
            num == size * u,
            u > 0,
    ;
    // The mean is at most one.
    assert(m <= 2 * u) by (nonlinear_arith)
        requires
            2 * k * size >= (2 * k * m - m - k) * n,
            0 <= size <= n * u,
            n >= 1,
            u > k,
            k == 0x80_0000int,
    ;
    assert((m + k) * n <= 3 * (n * u)) by (nonlinear_arith)
        requires
            m <= 2 * u,
            k <= u,
            n >= 1,
    ;
    assert((2 * k * m + m + k) * n == 2 * k * (n * m) + (m + k) * n) by (nonlinear_arith);
    assert((2 * k * m - m - k) * n == 2 * k * (n * m) - (m + k) * n) by (nonlinear_arith);
    assert(-3 * (n * u) <= 2 * k * (size - n * m) <= 3 * (n * u));
    let v = value(mean);
    assert(n * v == if float::is_negative(f, mean.pattern()) { -(n * m) } else { n * m })
        by (nonlinear_arith)
        requires
            v == if float::is_negative(f, mean.pattern()) { -m } else { m },
    ;
    assert(-3 * (n * u) <= 2 * k * (value(sum) - n * v) <= 3 * (n * u));
    assert(1000 * n * v == 1000 * (n * v)) by (nonlinear_arith);
    assert(1000 * (n * (n + 9)) * u == 1000 * (n * (n + 6)) * u + 3000 * (n * u))
        by (nonlinear_arith);
}

} // verus!
