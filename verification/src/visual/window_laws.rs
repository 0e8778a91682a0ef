//! Where the windows of a video lie.

use crate::bounds;
use crate::double::Double;
use crate::float::{self, Format};
use crate::visual::config::{self, SignatureConfig};
use vstd::arithmetic::power2;
use vstd::prelude::*;

verus! {

/// The units of a second.
pub open spec fn second() -> int {
    power2::pow2(1074) as int
}

/// By how much a number of up to 2^41 seconds is rounded at most: 2^-12 seconds.
pub open spec fn slip() -> int {
    power2::pow2(1062) as int
}

/// The units of a number.
pub open spec fn value(x: Double) -> int {
    float::value(Format::Double, x.pattern())
}

/// Whether a number is finite and not negative.
pub open spec fn is_plain(x: Double) -> bool {
    x.is_finite() && x.place() >= 0
}

/// Powers of two by which the proofs calculate.
proof fn lemma_powers()
    ensures
        second() == 4096 * slip(),
        slip() > 0,
        float::units(Format::Double, 0x4280_0000_0000_0000) == 0x200_0000_0000 * second(),
        float::units(Format::Double, config::HALF as nat) * 2 == second(),
        float::units(Format::Double, config::ONE as nat) == second(),
        float::units(Format::Double, config::FIFTEEN_PER_CENT as nat) * 5 <= second(),
        float::units(Format::Double, config::TENTH as nat) * 16 >= second(),
        float::units(Format::Double, config::TENTH as nat) * 8 <= second(),
        float::units(Format::Double, 0x4000_0000_0000_0000) == 2 * second(),
        float::units(Format::Double, 0x4270_0000_0000_0000) == 0x100_0000_0000 * second(),
{
    let f = Format::Double;
    power2::lemma2_to64();
    power2::lemma2_to64_rest();
    power2::lemma_pow2_pos(1062);
    power2::lemma_pow2_adds(12, 1062);
    power2::lemma_pow2_adds(52, 1063);
    power2::lemma_pow2_adds(52, 1062);
    power2::lemma_pow2_adds(41, 1074);
    power2::lemma_pow2_adds(40, 1074);
    power2::lemma_pow2_adds(52, 1021);
    power2::lemma_pow2_adds(52, 1022);
    power2::lemma_pow2_adds(52, 1023);
    power2::lemma_pow2_adds(1, 1074);
    power2::lemma_pow2_adds(1, 1073);
    power2::lemma_pow2_adds(55, 1019);
    power2::lemma_pow2_adds(56, 1018);
    power2::lemma_pow2_pos(1019);
    power2::lemma_pow2_pos(1018);
    assert(float::power(f, config::FIFTEEN_PER_CENT as nat) == 1019);
    assert(float::significant(f, config::FIFTEEN_PER_CENT as nat) == 0x13_3333_3333_3333);
    assert(float::power(f, config::TENTH as nat) == 1018);
    assert(float::significant(f, config::TENTH as nat) == 0x19_9999_9999_999a);
    assert(float::power(f, 0x4280_0000_0000_0000) == 1063);
    assert(float::significant(f, 0x4280_0000_0000_0000) == 0x10_0000_0000_0000);
    assert(float::power(f, 0x4270_0000_0000_0000) == 1062);
    assert(float::significant(f, 0x4270_0000_0000_0000) == 0x10_0000_0000_0000);
    assert(float::power(f, 0x4000_0000_0000_0000) == 1023);
    assert(float::power(f, config::ONE as nat) == 1022);
    assert(float::power(f, config::HALF as nat) == 1021);
}

/// A quotient of up to 2^41 seconds is rounded by little.
proof fn lemma_rounded_by_little(num: nat, den: nat) -> (p: nat)
    requires
        den > 0,
        num <= (0x200_0000_0000 * second()) * den,
    ensures
        p == float::nearest(Format::Double, num, den),
        p <= 0x4280_0000_0000_0000,
        float::units(Format::Double, p) * den <= num + slip() * den,
        num <= float::units(Format::Double, p) * den + slip() * den,
{
    let f = Format::Double;
    let p = float::nearest(f, num, den);
    let most: nat = 0x4280_0000_0000_0000;
    let limit = float::units(f, most);
    lemma_powers();
    float::lemma_nearest_exists(f, num, den);
    float::lemma_exact(f, most, limit * den, den);
    assert(num * den <= (limit * den) * den) by (nonlinear_arith)
        requires
            num <= limit * den,
    ;
    float::lemma_rounding_is_monotone(f, p, num, den, most, limit * den, den);
    let u = float::units(f, p) as int;
    let d = den as int;
    if p > 0 {
        let before = (p - 1) as nat;
        float::lemma_next(f, before);
        let gap = power2::pow2(float::power(f, before)) as int;
        lemma_small_gap(before);
        assert(u * d <= num + slip() * d) by (nonlinear_arith)
            requires
                2 * num >= float::middle(f, before) * d,
                float::middle(f, before) == 2 * u - gap,
                gap <= slip(),
                d > 0,
                slip() > 0,
        ;
    } else {
        float::lemma_zero_is_nearest(f, 1);
        assert(0 * d <= num + slip() * d) by (nonlinear_arith)
            requires
                num >= 0,
                slip() > 0,
                d > 0,
        ;
    }
    if p < most {
        float::lemma_next(f, p);
        let gap = power2::pow2(float::power(f, p)) as int;
        lemma_small_gap(p);
        assert(num <= u * d + slip() * d) by (nonlinear_arith)
            requires
                2 * num <= float::middle(f, p) * d,
                float::middle(f, p) == 2 * u + gap,
                gap <= slip(),
                d > 0,
                slip() > 0,
        ;
    } else {
        assert(num <= u * d + slip() * d) by (nonlinear_arith)
            requires
                num <= u * d,
                slip() > 0,
                d > 0,
        ;
    }
    p
}

/// Below 2^41 seconds the next number is near.
proof fn lemma_small_gap(p: nat)
    requires
        p < 0x4280_0000_0000_0000,
    ensures
        power2::pow2(float::power(Format::Double, p)) <= slip(),
{
    let k = float::power(Format::Double, p);
    assert(k <= 1062);
    if k < 1062 {
        power2::lemma_pow2_strictly_increases(k, 1062);
    }
}

/// A sum of up to 2^41 seconds is rounded by little.
proof fn lemma_sum(x: Double, y: Double)
    requires
        x.is_finite(),
        y.is_finite(),
        0 <= value(x) + value(y) <= 0x200_0000_0000 * second(),
    ensures
        is_plain(x.added(y)),
        value(x) + value(y) - slip() <= value(x.added(y)) <= value(x) + value(y) + slip(),
{
    let f = Format::Double;
    let sum = value(x) + value(y);
    lemma_powers();
    float::lemma_zero_is_nearest(f, 1);
    float::lemma_added_range(f, x.pattern(), y.pattern());
    let p = lemma_rounded_by_little(sum as nat, 1);
    assert(float::units(f, p) * 1 == float::units(f, p)) by (nonlinear_arith);
}

/// The units of a difference.
proof fn lemma_negated(x: Double)
    requires
        x.is_finite(),
    ensures
        Double::of(float::negated(Format::Double, x.pattern())).is_finite(),
        value(Double::of(float::negated(Format::Double, x.pattern()))) == -value(x),
        forall|y: Double| #[trigger]
            y.subtracted(x) == y.added(Double::of(float::negated(Format::Double, x.pattern()))),
{
}

/// A difference of up to 2^41 seconds is rounded by little.
proof fn lemma_difference(x: Double, y: Double)
    requires
        x.is_finite(),
        y.is_finite(),
        0 <= value(x) - value(y) <= 0x200_0000_0000 * second(),
    ensures
        is_plain(x.subtracted(y)),
        value(x) - value(y) - slip() <= value(x.subtracted(y)) <= value(x) - value(y) + slip(),
{
    lemma_negated(y);
    lemma_sum(x, Double::of(float::negated(Format::Double, y.pattern())));
}

/// Numbers are in the order of their units.
proof fn lemma_order(x: Double, y: Double)
    requires
        is_plain(x),
        is_plain(y),
    ensures
        value(x) <= value(y) <==> x.place() <= y.place(),
        value(x) >= 0,
{
    let f = Format::Double;
    float::lemma_zero_is_nearest(f, 1);
    let (p, q) = (float::magnitude(f, x.pattern()), float::magnitude(f, y.pattern()));
    if p < q {
        float::lemma_units_increase(f, p, q);
    } else if q < p {
        float::lemma_units_increase(f, q, p);
    }
}

/// A number is far larger than its distance to the next one, or has the smallest such distance.
proof fn lemma_relative_gap(p: nat)
    ensures
        power2::pow2(float::power(Format::Double, p)) * 0x10_0000_0000_0000 <= float::units(
            Format::Double,
            p,
        ) + 0x10_0000_0000_0000,
{
    let f = Format::Double;
    let gap = power2::pow2(float::power(f, p)) as int;
    power2::lemma2_to64();
    let m = float::significant(f, p) as int;
    if p >= 0x10_0000_0000_0000 {
        assert(m * gap >= 0x10_0000_0000_0000 * gap) by (nonlinear_arith)
            requires
                m >= 0x10_0000_0000_0000,
                gap >= 0,
        ;
    } else {
        assert(m * gap >= 0) by (nonlinear_arith)
            requires
                m >= 0,
                gap >= 0,
        ;
    }
}

/// The units of counts.
proof fn lemma_counts(i: nat, m: nat)
    requires
        i <= m,
        0 < m <= u64::MAX,
    ensures
        Double::counted(i).pattern() == float::counted(Format::Double, i),
        Double::counted(m).pattern() == float::counted(Format::Double, m),
        is_plain(Double::counted(i)),
        is_plain(Double::counted(m)),
        0 <= float::counted(Format::Double, i) < Format::Double.top(),
        0 < float::counted(Format::Double, m) < Format::Double.top(),
        0 <= value(Double::counted(i)) <= value(Double::counted(m)),
        second() <= value(Double::counted(m)) <= 0x1_0000_0000_0000_0000 * second(),
{
    let f = Format::Double;
    lemma_powers();
    power2::lemma2_to64();
    power2::lemma2_to64_rest();
    let far: nat = 0x43f0_0000_0000_0000;
    power2::lemma_pow2_adds(52, 1086);
    power2::lemma_pow2_adds(64, 1074);
    assert(float::power(f, far) == 1086);
    assert(float::units(f, far) == 0x1_0000_0000_0000_0000 * power2::pow2(1074));
    assert(float::units(f, far) * 1 == float::units(f, far)) by (nonlinear_arith);
    float::lemma_exact(f, far, float::units(f, far), 1);
    let one = config::ONE as nat;
    assert(float::units(f, one) * 1 == float::units(f, one)) by (nonlinear_arith);
    assert(1 * power2::pow2(1074) == power2::pow2(1074)) by (nonlinear_arith);
    float::lemma_exact(f, one, float::units(f, one), 1);
    float::lemma_count_is_monotone(f, i, m);
    float::lemma_count_is_monotone(f, 1, m);
    float::lemma_count_is_monotone(f, m, 0x1_0000_0000_0000_0000);
    assert(float::counted(f, 1) == one);
    assert(float::counted(f, 0x1_0000_0000_0000_0000) == far);
    let (p, q) = (float::counted(f, i) as nat, float::counted(f, m) as nat);
    if p < q {
        float::lemma_units_increase(f, p, q);
    }
    if one < q {
        float::lemma_units_increase(f, one, q);
    }
    if q < far {
        float::lemma_units_increase(f, q, far);
    }
}

/// What divides a length into parts is only a little longer when the parts are put together.
proof fn lemma_parts_make_the_whole(x: Double, i: nat, m: nat)
    requires
        is_plain(x),
        value(x) <= 0x180_0000_0000 * second(),
        i <= m,
        0 < m <= u64::MAX,
    ensures
        is_plain(Double::counted(i).multiplied(x.divided(Double::counted(m)))),
        value(Double::counted(i).multiplied(x.divided(Double::counted(m)))) <= value(x) + 3
            * slip(),
{
    let f = Format::Double;
    lemma_powers();
    lemma_counts(i, m);
    lemma_order(x, x);
    float::lemma_zero_is_nearest(f, 1);
    let unit = second();
    let e = slip();
    let xs = float::units(f, float::magnitude(f, x.pattern())) as int;
    let ms = value(Double::counted(m));
    let is = value(Double::counted(i));
    assert(xs * unit >= 0 && xs * unit <= (0x200_0000_0000 * unit) * ms) by (nonlinear_arith)
        requires
            0 <= xs <= 0x200_0000_0000 * unit,
            0 < unit <= ms,
    ;
    let p = lemma_rounded_by_little((xs * unit) as nat, ms as nat);
    float::lemma_nearest_exists(f, (xs * unit) as nat, ms as nat);
    let y = x.divided(Double::counted(m));
    let ys = float::units(f, p) as int;
    assert(float::magnitude(f, y.pattern()) == p);
    let whole = ms * ys;
    assert(0 <= whole <= (xs + 2 * e) * unit) by {
        assert(whole >= 0) by (nonlinear_arith)
            requires
                whole == ms * ys,
                ms >= 0,
                ys >= 0,
        ;
        if p > 0 {
            let before = (p - 1) as nat;
            float::lemma_next(f, before);
            lemma_relative_gap(before);
            let gap = power2::pow2(float::power(f, before)) as int;
            let twice = float::middle(f, before) as int;
            assert(twice == 2 * ys - gap);
            assert(gap * 0x10_0000_0000_0000 <= ys + 0x10_0000_0000_0000);
            assert(2 * (xs * unit) >= twice * ms);
            lemma_whole(xs, ys, ms, gap, unit, e);
        } else {
            assert(0 <= (xs + 2 * e) * unit) by (nonlinear_arith)
                requires
                    xs >= 0,
                    e > 0,
                    unit > 0,
            ;
            assert(ms * 0 == 0) by (nonlinear_arith);
        }
    }
    let num = is * ys;
    assert(0 <= num <= whole) by (nonlinear_arith)
        requires
            num == is * ys,
            whole == ms * ys,
            0 <= is <= ms,
            ys >= 0,
    ;
    assert((xs + 2 * e) * unit <= (0x200_0000_0000 * unit) * unit) by (nonlinear_arith)
        requires
            xs + 2 * e <= 0x200_0000_0000 * unit,
            unit > 0,
    ;
    let q = lemma_rounded_by_little(num as nat, unit as nat);
    let zs = float::units(f, q) as int;
    assert(zs <= xs + 3 * e) by (nonlinear_arith)
        requires
            zs * unit <= num + e * unit,
            num <= (xs + 2 * e) * unit,
            unit > 0,
    ;
    let z = Double::counted(i).multiplied(y);
    assert(float::magnitude(f, z.pattern()) == q);
    if float::is_negative(f, x.pattern()) {
        assert(0 * unit == 0) by (nonlinear_arith);
        float::lemma_zero_is_nearest(f, ms as nat);
        assert(is * 0 == 0) by (nonlinear_arith);
        float::lemma_zero_is_nearest(f, unit as nat);
        assert(p == 0 && q == 0);
    } else {
        assert(!float::is_negative(f, y.pattern()));
    }
}

/// The arithmetic of a rounded quotient: `ys` is near to `xs * unit / ms`, by a gap that is small
/// against it.
proof fn lemma_whole(xs: int, ys: int, ms: int, gap: int, unit: int, e: int)
    requires
        0 <= xs <= 0x180_0000_0000 * unit,
        ys >= 0,
        0 < ms <= 0x1_0000_0000_0000_0000 * unit,
        unit == 4096 * e,
        e == power2::pow2(1062),
        gap * 0x10_0000_0000_0000 <= ys + 0x10_0000_0000_0000,
        2 * (xs * unit) >= (2 * ys - gap) * ms,
    ensures
        ms * ys <= (xs + 2 * e) * unit,
{
    let k = 0x10_0000_0000_0000int;
    let w = ms * ys;
    power2::lemma2_to64();
    power2::lemma2_to64_rest();
    power2::lemma_pow2_adds(64, 64);
    power2::lemma_pow2_strictly_increases(128, 1062);
    assert(2 * k * (xs * unit) >= 2 * k * w - (ys + k) * ms) by (nonlinear_arith)
        requires
            2 * (xs * unit) >= (2 * ys - gap) * ms,
            gap * k <= ys + k,
            w == ms * ys,
            ms > 0,
            k > 0,
    ;
    assert((ys + k) * ms == w + k * ms) by (nonlinear_arith)
        requires
            w == ms * ys,
    ;
    assert(2 * k * (xs * unit) == (2 * k * xs) * unit) by (nonlinear_arith);
    let far = 0x1_0000_0000_0000_0000int;
    assert(k * ms <= (k * far) * unit) by (nonlinear_arith)
        requires
            ms <= far * unit,
            k > 0,
    ;
    assert((2 * k - 1) * w <= (2 * k * xs) * unit + (k * far) * unit);
    if w > (xs + 2 * e) * unit {
        let t = (2 * k - 1) * (xs + 2 * e);
        assert((2 * k - 1) * w > t * unit) by (nonlinear_arith)
            requires
                w > (xs + 2 * e) * unit,
                t == (2 * k - 1) * (xs + 2 * e),
                k == 0x10_0000_0000_0000int,
        ;
        assert((2 * k * xs) * unit + (k * far) * unit == (2 * k * xs + k * far) * unit)
            by (nonlinear_arith);
        assert(t < 2 * k * xs + k * far) by (nonlinear_arith)
            requires
                t * unit < (2 * k * xs + k * far) * unit,
                unit > 0,
        ;
        assert(false);
    }
}

/// No window ends after its video, once the video lasts for two seconds. Numbers of more than 2^40
/// seconds are too coarse for this, and so are windows of less than a tenth of a second.
pub proof fn law_windows_lie_within_the_video(duration: Double, config: SignatureConfig, i: int)
    requires
        (Double { bits: 0x4000_0000_0000_0000 }).is_at_most(duration),
        duration.is_at_most(Double { bits: 0x4270_0000_0000_0000 }),
        Double::zero().is_at_most(config.skip_secs),
        (Double { bits: config::TENTH }).is_at_most(config.window_secs),
        0 <= i < config.window_count,
    ensures
        config::window_end(duration, config, i).is_at_most(duration),
{
    let f = Format::Double;
    lemma_powers();
    float::lemma_zero_is_nearest(f, 1);
    let unit = second();
    let e = slip();
    let (half, one, tenth) = (
        Double { bits: config::HALF },
        Double { bits: config::ONE },
        Double { bits: config::TENTH },
    );
    let d = value(duration);
    lemma_order(Double { bits: 0x4000_0000_0000_0000 }, duration);
    lemma_order(duration, Double { bits: 0x4270_0000_0000_0000 });
    // Where the first window starts.
    let fraction = duration.multiplied(Double { bits: config::FIFTEEN_PER_CENT });
    lemma_fraction(duration);
    let first = config::usable_start(duration, config);
    if config.skip_secs.is_finite() {
        lemma_order(config.skip_secs, fraction);
    }
    lemma_order(fraction, fraction);
    assert(is_plain(first) && value(first) <= value(fraction));
    lemma_order(first, first);
    // Where the last one should end.
    lemma_difference(duration, half);
    lemma_sum(first, one);
    let (a, b) = (duration.subtracted(half), first.added(one));
    lemma_order(a, b);
    lemma_order(b, a);
    let last = config::usable_end(duration, config);
    assert(is_plain(last) && value(last) <= d - unit / 2 + e && value(last) >= value(b));
    lemma_difference(last, first);
    let usable = config::usable(duration, config);
    let length = config::window_length(duration, config);
    lemma_order(usable, usable);
    if config.window_secs.is_finite() {
        lemma_order(tenth, config.window_secs);
        lemma_order(config.window_secs, usable);
    }
    assert(is_plain(length) && unit <= 16 * value(length) && value(length) <= value(usable));
    // Where this one starts.
    let way = Double::counted(i as nat).multiplied(config::step(duration, config));
    assert(is_plain(way) && value(way) <= value(usable) - value(length) + 4 * e) by {
        if config.window_count > 1 {
            lemma_difference(usable, length);
            lemma_parts_make_the_whole(
                usable.subtracted(length),
                i as nat,
                (config.window_count - 1) as nat,
            );
        } else {
            float::lemma_count_of_nothing(f);
            float::lemma_zero_times(f, 0);
        }
    }
    lemma_order(way, way);
    lemma_sum(first, way);
    let start = config::window_start(duration, config, i);
    lemma_sum(start, half);
    lemma_order(start.added(half), duration);
    // A tenth of a second before the end of the video.
    lemma_order(tenth, duration);
    lemma_difference(duration, tenth);
    lemma_order(duration.subtracted(tenth), duration);
}

/// Fifteen per cent of a video are less than a fifth.
proof fn lemma_fraction(duration: Double)
    requires
        is_plain(duration),
        value(duration) <= 0x100_0000_0000 * second(),
    ensures
        is_plain(duration.multiplied(Double { bits: config::FIFTEEN_PER_CENT })),
        5 * value(duration.multiplied(Double { bits: config::FIFTEEN_PER_CENT })) <= value(duration)
            + 5 * slip(),
{
    let f = Format::Double;
    lemma_powers();
    lemma_order(duration, duration);
    float::lemma_zero_is_nearest(f, 1);
    let unit = second();
    let e = slip();
    let d = float::units(f, float::magnitude(f, duration.pattern())) as int;
    let c = float::units(f, config::FIFTEEN_PER_CENT as nat) as int;
    assert(0 <= d * c && 5 * (d * c) <= d * unit) by (nonlinear_arith)
        requires
            0 <= 5 * c <= unit,
            d >= 0,
    ;
    assert(d * unit <= (0x200_0000_0000 * unit) * unit) by (nonlinear_arith)
        requires
            d <= 0x200_0000_0000 * unit,
            unit > 0,
    ;
    let p = lemma_rounded_by_little((d * c) as nat, unit as nat);
    let u = float::units(f, p) as int;
    assert(5 * u <= d + 5 * e) by (nonlinear_arith)
        requires
            u * unit <= d * c + e * unit,
            5 * (d * c) <= d * unit,
            unit > 0,
    ;
    let product = duration.multiplied(Double { bits: config::FIFTEEN_PER_CENT });
    assert(float::magnitude(f, product.pattern()) == p);
    if float::is_negative(f, duration.pattern()) {
        assert(0 * c == 0) by (nonlinear_arith);
        float::lemma_zero_is_nearest(f, unit as nat);
    }
}

// ---- The whole layout ----

/// The parts of a length that is divided by `m`, put together `i` times, are `i / m` of it, up to
/// little.
proof fn lemma_parts(x: Double, i: nat, m: nat)
    requires
        is_plain(x),
        value(x) <= 0x180_0000_0000 * second(),
        i <= m,
        0 < m <= 0x1_0000_0000,
    ensures
        is_plain(x.divided(Double::counted(m))),
        !float::is_negative(Format::Double, x.pattern()) ==> !float::is_negative(
            Format::Double,
            x.divided(Double::counted(m)).pattern(),
        ),
        is_plain(Double::counted(i).multiplied(x.divided(Double::counted(m)))),
        ({
            let way = value(Double::counted(i).multiplied(x.divided(Double::counted(m))));
            -3 * slip() * m <= m * way - i * value(x) <= 3 * slip() * m
        }),
{
    let f = Format::Double;
    lemma_powers();
    lemma_counts(i, m);
    lemma_parts_make_the_whole(x, i, m);
    lemma_order(x, x);
    float::lemma_zero_is_nearest(f, 1);
    float::lemma_count_is_exact(i);
    float::lemma_count_is_exact(m);
    let unit = second();
    let e = slip();
    let xs = float::units(f, float::magnitude(f, x.pattern())) as int;
    let ms = value(Double::counted(m));
    let is = value(Double::counted(i));
    assert(ms == m * unit && is == i * unit);
    assert(xs * unit >= 0 && xs * unit <= (0x200_0000_0000 * unit) * ms) by (nonlinear_arith)
        requires
            0 <= xs <= 0x200_0000_0000 * unit,
            0 < unit <= ms,
    ;
    let p = lemma_rounded_by_little((xs * unit) as nat, ms as nat);
    float::lemma_nearest_exists(f, (xs * unit) as nat, ms as nat);
    let y = x.divided(Double::counted(m));
    let ys = float::units(f, p) as int;
    assert(float::magnitude(f, y.pattern()) == p);
    if float::is_negative(f, x.pattern()) {
        assert(0 * unit == 0) by (nonlinear_arith);
        float::lemma_zero_is_nearest(f, ms as nat);
    }
    // How far a part may be off.
    float::lemma_next(f, p);
    lemma_relative_gap(p);
    let gap = power2::pow2(float::power(f, p)) as int;
    power2::lemma_pow2_pos(float::power(f, p));
    lemma_part_below(xs, ys, m as int, gap, unit);
    if p > 0 {
        let before = (p - 1) as nat;
        float::lemma_next(f, before);
        lemma_relative_gap(before);
        let less = power2::pow2(float::power(f, before)) as int;
        power2::lemma_pow2_pos(float::power(f, before));
        lemma_part_above(xs, ys, m as int, less, unit);
        lemma_power_grows(before);
        assert(m * less <= m * gap) by (nonlinear_arith)
            requires
                less <= gap,
                m > 0,
        ;
    } else {
        assert(ys == 0);
        assert(m * 0 <= xs + m * gap) by (nonlinear_arith)
            requires
                xs >= 0,
                gap > 0,
                m > 0,
        ;
    }
    assert(m * ys - xs <= m * gap && xs - m * ys <= m * gap);
    lemma_gaps_are_small(xs, ys, m as int, gap, unit, e);
    assert(m * gap <= 2 * e);
    // How far it is with the rounding of the product.
    let num = is * ys;
    assert(num >= 0 && num <= (0x200_0000_0000 * unit) * unit) by {
        assert(m * ys <= xs + 2 * e);
        assert(i * ys <= m * ys) by (nonlinear_arith)
            requires
                i <= m,
                ys >= 0,
        ;
        assert(num == (i * ys) * unit) by (nonlinear_arith)
            requires
                num == is * ys,
                is == i * unit,
        ;
        assert(0 <= (i * ys) * unit <= (0x200_0000_0000 * unit) * unit) by (nonlinear_arith)
            requires
                0 <= i * ys <= 0x200_0000_0000 * unit,
                unit > 0,
        ;
        assert(0 <= i * ys) by (nonlinear_arith)
            requires
                i >= 0,
                ys >= 0,
        ;
    }
    let q = lemma_rounded_by_little(num as nat, unit as nat);
    let zs = float::units(f, q) as int;
    let z = Double::counted(i).multiplied(y);
    assert(float::magnitude(f, z.pattern()) == q);
    assert(i * ys - e <= zs <= i * ys + e) by (nonlinear_arith)
        requires
            zs * unit <= num + e * unit,
            num <= zs * unit + e * unit,
            num == is * ys,
            is == i * unit,
            unit > 0,
    ;
    assert(value(z) == zs);
    assert(m * (i * ys) - i * xs <= m * (m * gap) && i * xs - m * (i * ys) <= m * (m * gap))
        by (nonlinear_arith)
        requires
            m * ys - xs <= m * gap,
            xs - m * ys <= m * gap,
            0 <= i <= m,
            gap > 0,
    ;
    assert(m * (m * gap) <= m * (2 * e)) by (nonlinear_arith)
        requires
            m * gap <= 2 * e,
            m > 0,
    ;
    assert(m * (i * ys) - m * e <= m * zs <= m * (i * ys) + m * e) by (nonlinear_arith)
        requires
            i * ys - e <= zs <= i * ys + e,
            m > 0,
    ;
    assert(m * (2 * e) + m * e == 3 * e * m) by (nonlinear_arith);
    assert(-3 * e * m == -(3 * e * m)) by (nonlinear_arith);
    assert(value(x) == xs);
}

proof fn lemma_power_grows(p: nat)
    ensures
        power2::pow2(float::power(Format::Double, p)) <= power2::pow2(
            float::power(Format::Double, p + 1),
        ),
{
    let (j, k) = (float::power(Format::Double, p), float::power(Format::Double, p + 1));
    assert(j <= k);
    if j < k {
        power2::lemma_pow2_strictly_increases(j, k);
    }
}

proof fn lemma_part_below(xs: int, ys: int, m: int, gap: int, unit: int)
    requires
        2 * (xs * unit) <= (2 * ys + gap) * (m * unit),
        unit > 0,
        m > 0,
        gap > 0,
    ensures
        xs - m * ys <= m * gap,
{
    assert((2 * ys + gap) * (m * unit) == ((2 * ys + gap) * m) * unit) by (nonlinear_arith);
    assert(2 * xs <= (2 * ys + gap) * m) by (nonlinear_arith)
        requires
            2 * (xs * unit) <= ((2 * ys + gap) * m) * unit,
            unit > 0,
    ;
    assert((2 * ys + gap) * m == 2 * (m * ys) + m * gap) by (nonlinear_arith);
    assert(m * gap > 0) by (nonlinear_arith)
        requires
            m > 0,
            gap > 0,
    ;
}

proof fn lemma_part_above(xs: int, ys: int, m: int, gap: int, unit: int)
    requires
        2 * (xs * unit) >= (2 * ys - gap) * (m * unit),
        unit > 0,
        m > 0,
        gap > 0,
    ensures
        m * ys - xs <= m * gap,
{
    assert((2 * ys - gap) * (m * unit) == ((2 * ys - gap) * m) * unit) by (nonlinear_arith);
    assert(2 * xs >= (2 * ys - gap) * m) by (nonlinear_arith)
        requires
            2 * (xs * unit) >= ((2 * ys - gap) * m) * unit,
            unit > 0,
    ;
    assert((2 * ys - gap) * m == 2 * (m * ys) - m * gap) by (nonlinear_arith);
    assert(m * gap > 0) by (nonlinear_arith)
        requires
            m > 0,
            gap > 0,
    ;
}

/// Many gaps of a part are small against a second.
proof fn lemma_gaps_are_small(xs: int, ys: int, m: int, gap: int, unit: int, e: int)
    requires
        0 <= xs <= 0x180_0000_0000 * unit,
        ys >= 0,
        0 < m <= 0x1_0000_0000,
        unit == 4096 * e,
        e == power2::pow2(1062),
        gap > 0,
        gap * 0x10_0000_0000_0000 <= ys + 0x10_0000_0000_0000,
        m * ys - xs <= m * gap,
    ensures
        m * gap <= 2 * e,
{
    let k = 0x10_0000_0000_0000int;
    power2::lemma2_to64();
    power2::lemma2_to64_rest();
    power2::lemma_pow2_strictly_increases(64, 1062);
    assert(k * (m * gap) <= m * ys + k * m) by (nonlinear_arith)
        requires
            gap * k <= ys + k,
            m > 0,
    ;
    let t = m * gap;
    assert((k - 1) * t == k * t - t) by (nonlinear_arith);
    assert((k - 1) * (m * gap) <= xs + k * m);
    assert(k * m <= e * k) by (nonlinear_arith)
        requires
            m <= e,
            k > 0,
    ;
    if m * gap > 2 * e {
        assert((k - 1) * (m * gap) >= (k - 1) * (2 * e + 1)) by (nonlinear_arith)
            requires
                m * gap >= 2 * e + 1,
                k == 0x10_0000_0000_0000int,
        ;
        assert(false);
    }
}

/// Where the first window of a video should start: after the seconds to skip, or after fifteen per
/// cent of the video where this is less.
pub open spec fn skipped_to(duration: Double, config: SignatureConfig) -> Double {
    let limit = duration.multiplied(Double { bits: 0x3fc3_3333_3333_3333 });
    if config.skip_secs.is_at_most(limit) {
        config.skip_secs
    } else {
        limit
    }
}

/// Whether a video and a configuration are of an ordinary size: up to 2^40 seconds, up to 2^32
/// windows, and nothing negative.
pub open spec fn is_ordinary(duration: Double, config: SignatureConfig) -> bool {
    &&& Double::zero().is_at_most(duration)
    &&& value(duration) <= 0x100_0000_0000 * second()
    &&& Double::zero().is_at_most(config.skip_secs)
    &&& Double::zero().is_at_most(config.window_secs)
    &&& config.window_count <= 0x1_0000_0000
}

proof fn lemma_first(duration: Double, config: SignatureConfig)
    requires
        is_ordinary(duration, config),
    ensures
        duration.is_finite(),
        is_plain(duration),
        value(duration) >= 0,
        is_plain(skipped_to(duration, config)),
        0 <= value(skipped_to(duration, config)),
        5 * value(skipped_to(duration, config)) <= value(duration) + 5 * slip(),
        config::usable_start(duration, config).place() == skipped_to(duration, config).place(),
        value(config::usable_start(duration, config)) == value(skipped_to(duration, config)),
        is_plain(config::usable_start(duration, config)),
{
    let f = Format::Double;
    lemma_powers();
    float::lemma_zero_is_nearest(f, 1);
    assert(duration.is_finite()) by {
        if !duration.is_finite() {
            float::lemma_units_increase(f, 0x4280_0000_0000_0000, f.top());
        }
    }
    lemma_fraction(duration);
    lemma_order(duration, duration);
    let limit = duration.multiplied(Double { bits: config::FIFTEEN_PER_CENT });
    lemma_order(limit, limit);
    if config.skip_secs.is_finite() {
        lemma_order(config.skip_secs, limit);
        lemma_order(limit, config.skip_secs);
    }
}

/// What the positions of windows are made of, up to little.
proof fn lemma_layout(duration: Double, config: SignatureConfig)
    requires
        is_ordinary(duration, config),
    ensures
        is_plain(config::usable(duration, config)),
        is_plain(config::window_length(duration, config)),
        0 <= value(config::window_length(duration, config)) <= value(
            config::usable(duration, config),
        ) <= 0x140_0000_0000 * second(),
        value(config::usable(duration, config)) > 0,
        value(duration) >= 2 * second() ==> {
            let rest = value(config::usable(duration, config)) - (value(duration) - second() / 2
                - value(skipped_to(duration, config)));
            -2 * slip() <= rest <= 2 * slip()
        },
{
    let f = Format::Double;
    lemma_powers();
    lemma_first(duration, config);
    float::lemma_zero_is_nearest(f, 1);
    let unit = second();
    let e = slip();
    let (half, one) = (Double { bits: config::HALF }, Double { bits: config::ONE });
    let first = config::usable_start(duration, config);
    let (a, b) = (duration.subtracted(half), first.added(one));
    lemma_sum(first, one);
    lemma_order(b, b);
    let d = value(duration);
    if 2 * d >= unit {
        lemma_difference(duration, half);
        lemma_order(a, b);
        lemma_order(b, a);
    } else {
        lemma_below_zero(duration);
    }
    let last = config::usable_end(duration, config);
    assert(is_plain(last) && value(last) >= value(b));
    assert(value(last) <= d + 2 * unit);
    lemma_difference(last, first);
    let usable = config::usable(duration, config);
    lemma_order(usable, usable);
    if config.window_secs.is_finite() {
        lemma_order(config.window_secs, usable);
        lemma_order(usable, config.window_secs);
    }
}

/// Half a second before the end of a video that is shorter than that.
proof fn lemma_below_zero(duration: Double)
    requires
        is_plain(duration),
        2 * value(duration) < second(),
    ensures
        !duration.subtracted(Double { bits: config::HALF }).is_nan(),
        duration.subtracted(Double { bits: config::HALF }).place() <= 0,
{
    let f = Format::Double;
    lemma_powers();
    float::lemma_zero_is_nearest(f, 1);
    let half = Double { bits: config::HALF };
    let x = duration.pattern();
    let y = float::negated(f, half.pattern());
    let sum = value(duration) - value(half);
    float::lemma_added_range(f, x, y);
    float::lemma_nearest_exists(f, (-sum) as nat, 1);
}

/// The first window starts after the seconds to skip; but where these are more than fifteen per
/// cent of the video, it starts after so much of it.
pub proof fn law_first_window_starts_after_the_skip(duration: Double, config: SignatureConfig)
    requires
        is_ordinary(duration, config),
        config.window_count > 0,
    ensures
        config.skip_secs.is_at_most(
            duration.multiplied((Double { bits: 0x3fc3_3333_3333_3333 })),
        ) ==> config::window_positions(duration, config)[0].0.place() == config.skip_secs.place(),
        duration.multiplied((Double { bits: 0x3fc3_3333_3333_3333 })).is_less(config.skip_secs)
            ==> config::window_positions(duration, config)[0].0.place() == duration.multiplied(
            (Double { bits: 0x3fc3_3333_3333_3333 }),
        ).place(),
{
    let f = Format::Double;
    lemma_powers();
    lemma_first(duration, config);
    lemma_layout(duration, config);
    lemma_step(duration, config);
    let gap = config::step(duration, config);
    float::lemma_count_of_nothing(f);
    float::lemma_zero_times(f, gap.pattern());
    let first = config::usable_start(duration, config);
    float::lemma_plus_nothing(f, first.pattern());
    float::lemma_added_range(f, first.pattern(), 0);
}

/// The distance of windows is a finite number with no sign.
proof fn lemma_step(duration: Double, config: SignatureConfig)
    requires
        is_ordinary(duration, config),
    ensures
        config::step(duration, config).is_finite(),
        !float::is_negative(Format::Double, config::step(duration, config).pattern()),
{
    let f = Format::Double;
    lemma_powers();
    lemma_layout(duration, config);
    if config.window_count > 1 {
        let (usable, length) = (
            config::usable(duration, config),
            config::window_length(duration, config),
        );
        let m = (config.window_count - 1) as nat;
        lemma_difference(usable, length);
        let x = usable.subtracted(length);
        lemma_parts(x, 0, m);
        lemma_counts(0, m);
        lemma_unsigned_difference(usable, length);
    }
}

/// A difference that is not below zero has no sign.
proof fn lemma_unsigned_difference(x: Double, y: Double)
    requires
        x.is_finite(),
        y.is_finite(),
        is_plain(x),
        0 <= value(x) - value(y) <= 0x200_0000_0000 * second(),
        !float::is_negative(Format::Double, x.pattern()) || value(x) > value(y)
            || !float::is_negative(Format::Double, float::negated(Format::Double, y.pattern())),
    ensures
        !float::is_negative(Format::Double, x.subtracted(y).pattern()),
{
    let f = Format::Double;
    lemma_powers();
    let sum = value(x) - value(y);
    float::lemma_nearest_exists(f, sum as nat, 1);
    float::lemma_added_range(f, x.pattern(), float::negated(f, y.pattern()));
}

/// The windows of a video that has room for them lie evenly between the skipped part and the last
/// half second: the first one starts after the skipped part, the last one ends half a second before
/// the end of the video, and the starts of the others are in between at equal distances, all up to
/// 2^-9 seconds. Each is as long as the configuration says.
pub proof fn law_windows_are_spread_evenly(duration: Double, config: SignatureConfig, i: int)
    requires
        is_ordinary(duration, config),
        value(duration) >= 2 * second(),
        (Double { bits: 0x3fe0_0000_0000_0000 }).is_at_most(config.window_secs),
        config.window_secs.is_finite(),
        value(skipped_to(duration, config)) + value(config.window_secs) + second() / 2 + 4 * slip()
            <= value(duration),
        0 <= i < config.window_count,
    ensures
        config::window_positions(duration, config).len() == config.window_count,
        config::window_positions(duration, config)[i].1 == config::window_positions(
            duration,
            config,
        )[i].0.added(config.window_secs),
        config.window_count > 1 ==> {
            let m = config.window_count - 1;
            let first = value(skipped_to(duration, config));
            let all = value(duration) - second() / 2 - value(config.window_secs) - first;
            let way = value(config::window_positions(duration, config)[i].0) - first;
            -8 * slip() * m <= m * way - i * all <= 8 * slip() * m
        },
{
    let f = Format::Double;
    lemma_powers();
    lemma_first(duration, config);
    lemma_layout(duration, config);
    float::lemma_zero_is_nearest(f, 1);
    let unit = second();
    let e = slip();
    let (half, tenth) = (Double { bits: config::HALF }, Double { bits: config::TENTH });
    let first = config::usable_start(duration, config);
    let usable = config::usable(duration, config);
    let length = config::window_length(duration, config);
    let ws = config.window_secs;
    lemma_order(usable, ws);
    lemma_order(ws, usable);
    lemma_order(half, ws);
    assert(length == ws);
    let start = config::window_start(duration, config, i);
    let way = Double::counted(i as nat).multiplied(config::step(duration, config));
    let rest = value(duration) - unit / 2 - value(ws) - value(first);
    if config.window_count > 1 {
        let m = (config.window_count - 1) as nat;
        lemma_difference(usable, length);
        let x = usable.subtracted(length);
        lemma_parts(x, i as nat, m);
        assert(-3 * e <= value(x) - rest <= 3 * e);
        lemma_spread(i, m as int, value(x), rest, value(way), e);
    } else {
        float::lemma_count_of_nothing(f);
        float::lemma_zero_times(f, 0);
    }
    lemma_order(way, way);
    assert(value(way) <= rest + 7 * e);
    lemma_sum(first, way);
    lemma_order(start, start);
    assert(is_plain(start));
    // The end is not moved.
    lemma_sum(start, ws);
    lemma_sum(start, half);
    lemma_difference(duration, tenth);
    let end = start.added(ws);
    lemma_order(end, duration.subtracted(tenth));
    lemma_order(duration.subtracted(tenth), end);
    float::lemma_sum_is_commutative(f, start.pattern(), ws.pattern());
    float::lemma_sum_is_commutative(f, start.pattern(), half.pattern());
    float::lemma_sum_is_monotone(f, half.pattern(), ws.pattern(), start.pattern());
    if config.window_count > 1 {
        let m = config.window_count - 1;
        lemma_spread_start(i, m, rest, value(way), value(start) - value(first), e);
    }
}

proof fn lemma_spread(i: int, m: int, x: int, rest: int, way: int, e: int)
    requires
        0 <= i <= m,
        m > 0,
        e > 0,
        -3 * e <= x - rest <= 3 * e,
        -3 * e * m <= m * way - i * x <= 3 * e * m,
        rest >= 0,
    ensures
        -6 * e * m <= m * way - i * rest <= 6 * e * m,
        way <= rest + 6 * e,
{
    assert(-3 * e * m <= i * x - i * rest <= 3 * e * m) by (nonlinear_arith)
        requires
            -3 * e <= x - rest <= 3 * e,
            0 <= i <= m,
            e > 0,
    ;
    assert(-3 * e * m == -(3 * e * m) && -6 * e * m == -(6 * e * m)) by (nonlinear_arith);
    assert(6 * e * m == 2 * (3 * e * m)) by (nonlinear_arith);
    assert(way <= rest + 6 * e) by (nonlinear_arith)
        requires
            m * way - i * rest <= 6 * e * m,
            0 <= i <= m,
            rest >= 0,
            m > 0,
    ;
}

proof fn lemma_spread_start(i: int, m: int, rest: int, way: int, moved: int, e: int)
    requires
        0 <= i <= m,
        m > 0,
        e > 0,
        -6 * e * m <= m * way - i * rest <= 6 * e * m,
        way - e <= moved <= way + e,
    ensures
        -8 * e * m <= m * moved - i * rest <= 8 * e * m,
{
    assert(m * way - m * e <= m * moved <= m * way + m * e) by (nonlinear_arith)
        requires
            way - e <= moved <= way + e,
            m > 0,
    ;
    assert(6 * e * m + m * e <= 8 * e * m && -8 * e * m <= -6 * e * m - m * e) by (nonlinear_arith)
        requires
            e > 0,
            m > 0,
    ;
}

/// How much of a video there is for windows: all from the skipped part to half a second before the
/// end, but a second at least.
pub open spec fn room(duration: Double, config: SignatureConfig) -> int {
    bounds::larger(
        value(duration) - second() / 2 - value(skipped_to(duration, config)),
        second(),
    )
}

/// How long the windows of a video are: as the configuration says, but not longer than there is
/// room.
pub open spec fn window_room(duration: Double, config: SignatureConfig) -> int {
    if config.window_secs.is_finite() {
        bounds::smaller(value(config.window_secs), room(duration, config))
    } else {
        room(duration, config)
    }
}

/// The windows of every video, however short, start at equal distances from the skipped part on, so
/// that the last one fills the room that there is. Each is as long as the configuration and the
/// room allow; but it ends a tenth of a second before the end of the video at the latest, and then
/// half a second after its start at the earliest. All of this holds up to 2^-9 seconds.
pub proof fn law_windows_fill_the_room(duration: Double, config: SignatureConfig, i: int)
    requires
        is_ordinary(duration, config),
        0 <= i < config.window_count,
    ensures
        config.window_count > 1 ==> {
            let m = config.window_count - 1;
            let way = value(config::window_positions(duration, config)[i].0) - value(
                skipped_to(duration, config),
            );
            let all = room(duration, config) - window_room(duration, config);
            -8 * slip() * m <= m * way - i * all <= 8 * slip() * m
        },
        value(duration) >= second() ==> {
            let (start, end) = config::window_positions(duration, config)[i];
            let wanted = bounds::larger(
                bounds::smaller(
                    value(start) + window_room(duration, config),
                    value(duration) - value(Double { bits: 0x3fb9_9999_9999_999a }),
                ),
                value(start) + second() / 2,
            );
            -8 * slip() <= value(end) - wanted <= 8 * slip()
        },
{
    let f = Format::Double;
    lemma_powers();
    lemma_first(duration, config);
    lemma_layout(duration, config);
    lemma_room(duration, config);
    float::lemma_zero_is_nearest(f, 1);
    let unit = second();
    let e = slip();
    let (half, tenth) = (Double { bits: config::HALF }, Double { bits: config::TENTH });
    let first = config::usable_start(duration, config);
    let usable = config::usable(duration, config);
    let length = config::window_length(duration, config);
    if config.window_secs.is_finite() {
        lemma_order(usable, config.window_secs);
        lemma_order(config.window_secs, usable);
    }
    let wide = window_room(duration, config);
    assert(-2 * e <= value(length) - wide <= 2 * e);
    let start = config::window_start(duration, config, i);
    let way = Double::counted(i as nat).multiplied(config::step(duration, config));
    let rest = room(duration, config) - wide;
    assert(rest >= 0);
    if config.window_count > 1 {
        let m = (config.window_count - 1) as nat;
        lemma_difference(usable, length);
        let x = usable.subtracted(length);
        lemma_parts(x, i as nat, m);
        assert(-3 * e <= value(x) - rest <= 3 * e);
        lemma_spread(i, m as int, value(x), rest, value(way), e);
    } else {
        float::lemma_count_of_nothing(f);
        float::lemma_zero_times(f, 0);
    }
    lemma_order(way, way);
    assert(value(way) <= rest + 7 * e);
    lemma_sum(first, way);
    lemma_order(start, start);
    if config.window_count > 1 {
        let m = config.window_count - 1;
        lemma_spread_start(i, m, rest, value(way), value(start) - value(first), e);
    }
    if value(duration) >= unit {
        lemma_sum(start, length);
        lemma_sum(start, half);
        lemma_difference(duration, tenth);
        let end = start.added(length);
        let latest = duration.subtracted(tenth);
        lemma_order(end, latest);
        lemma_order(latest, end);
        let shorter = end.smaller(latest);
        let least = start.added(half);
        lemma_order(shorter, least);
        lemma_order(least, shorter);
    }
}

proof fn lemma_room(duration: Double, config: SignatureConfig)
    requires
        is_ordinary(duration, config),
    ensures
        -2 * slip() <= value(config::usable(duration, config)) - room(duration, config) <= 2
            * slip(),
{
    let f = Format::Double;
    lemma_powers();
    lemma_first(duration, config);
    float::lemma_zero_is_nearest(f, 1);
    let (half, one) = (Double { bits: config::HALF }, Double { bits: config::ONE });
    let first = config::usable_start(duration, config);
    let (a, b) = (duration.subtracted(half), first.added(one));
    lemma_sum(first, one);
    lemma_order(b, b);
    let d = value(duration);
    if 2 * d >= second() {
        lemma_difference(duration, half);
        lemma_order(a, b);
        lemma_order(b, a);
    } else {
        lemma_below_zero(duration);
    }
    let last = config::usable_end(duration, config);
    assert(is_plain(last) && value(last) >= value(b));
    assert(value(last) <= d + 2 * second());
    lemma_difference(last, first);
}

} // verus!
